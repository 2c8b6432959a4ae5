//! Which instructions bring children with keys into a new order.
use crate::changelist::Edit;
use crate::changelist::Move;
use crate::changelist::Step;
use crate::dom::instructions;
use crate::dom::lemma_instructions_add;
use crate::dom::lemma_instructions_empty;
use crate::dom::lemma_instructions_push;
use crate::keys::count;
use crate::keys::has_key;
use crate::keys::index_of_key;
use crate::keys::lemma_count_below;
use crate::keys::lemma_count_none;
use crate::keys::lemma_index_of_key;
use crate::keys::lemma_run_end;
use crate::keys::none_reused;
use crate::keys::reused;
use crate::keys::run_end;
use crate::keys::sources;
use crate::keys::uniquely_keyed;
use crate::laws::right::same_kind;
use crate::lis::picked;
use crate::steps::anchor_steps;
use crate::steps::append_steps;
use crate::steps::clear_steps;
use crate::steps::create_steps;
use crate::steps::cut_steps;
use crate::steps::drop_steps;
use crate::steps::go;
use crate::steps::has_source;
use crate::steps::middle_steps;
use crate::steps::node_steps;
use crate::steps::place_one_steps;
use crate::steps::place_steps;
use crate::steps::save_steps;
use crate::steps::settle_steps;
use crate::steps::source_steps;
use crate::steps::source_temp;
use crate::steps::temps_end;
use crate::vnode::VNode;
use crate::vnode::keeps_node;
use vstd::prelude::*;

verus! {

broadcast use {
    lemma_instructions_empty,
    lemma_instructions_push,
    lemma_instructions_add,
};

/// For each old node, whether a new node has its key.
pub open spec fn wanted(olds: Seq<VNode>, news: Seq<VNode>) -> Seq<bool> {
    Seq::new(
        olds.len(),
        |i: int| exists|j: int| 0 <= j < news.len() && (#[trigger] news[j]).key() == olds[i].key(),
    )
}

/// How many flags are set.
pub open spec fn flagged(flags: Seq<bool>) -> nat
    decreases flags.len(),
{
    if flags.len() == 0 {
        0
    } else if flags.last() {
        flagged(flags.drop_last()) + 1
    } else {
        flagged(flags.drop_last())
    }
}

/// How many runs of flags that are set there are.
pub open spec fn runs(flags: Seq<bool>) -> nat
    decreases flags.len(),
{
    if flags.len() == 0 {
        0
    } else if flags.last() && (flags.len() == 1 || !flags[flags.len() - 2]) {
        runs(flags.drop_last()) + 1
    } else {
        runs(flags.drop_last())
    }
}

proof fn lemma_wanted(olds: Seq<VNode>, news: Seq<VNode>)
    ensures
        wanted(olds, news) == reused(olds, news),
        flagged(wanted(olds, news)) == count(reused(olds, news)),
{
    assert(wanted(olds, news) =~= reused(olds, news));
    lemma_flagged(wanted(olds, news));
}

proof fn lemma_flagged(flags: Seq<bool>)
    ensures
        flagged(flags) == count(flags),
    decreases flags.len(),
{
    if flags.len() > 0 {
        lemma_flagged(flags.drop_last());
    }
}

/// Where no old node has the key of a new one and nothing follows,
/// `diff_keyed_middle` removes the old nodes at once and creates the new ones.
/// Otherwise it saves the old nodes whose keys are reused and removes the other
/// ones. Then it brings the nodes into order as `settle_keyed_middle` does, if
/// there are new ones, and those that are picked stay in place.
pub proof fn law_diff_keyed_middle_emits<'a>(
    olds: Seq<VNode<'a>>,
    news: Seq<VNode<'a>>,
    prefix: int,
    suffix: int,
    suffix_start: int,
    t: nat,
)
    ensures
        ({
            let steps = middle_steps(olds, news, prefix, suffix, suffix_start, t);
            let flags = wanted(olds, news);
            let anew = suffix == 0 && flagged(flags) == 0;
            let save = save_steps::<'a>(flags, 0, prefix, t);
            let drop = drop_steps::<'a>(flags, flags.len() as int, prefix);
            let anchor = suffix_start - (olds.len() - flagged(flags));
            let kept = picked(sources(olds, news));
            &&& anew && prefix == 0 ==> steps == seq![Step::Commit] + clear_steps() + append_steps(
                news,
            )
            &&& anew && prefix != 0 ==> steps == seq![
                go(Move::DownToChild(prefix as usize)),
                Step::Commit,
            ] + cut_steps() + append_steps(news)
            &&& !anew && news.len() == 0 ==> steps == save + drop
            &&& !anew && news.len() > 0 ==> steps == save + drop + settle_steps(
                olds,
                news,
                kept,
                suffix > 0,
                anchor,
                t,
            )
        }),
{
    reveal(middle_steps);
    lemma_wanted(olds, news);
    let flags = wanted(olds, news);
    let steps = middle_steps(olds, news, prefix, suffix, suffix_start, t);
    assert(none_reused(olds, news) == (flagged(flags) == 0)) by {
        if none_reused(olds, news) {
            assert forall|i: int| 0 <= i < flags.len() implies !#[trigger] flags[i] by {
                assert(!has_key(news, olds[i].key()));
            }
            lemma_count_none(flags);
        } else {
            let i = choose|i: int|
                0 <= i < olds.len() && has_key(news, (#[trigger] olds[i]).key());
            assert(flags[i]);
            lemma_count_below(flags, i);
        }
    }
    if suffix == 0 && flagged(flags) == 0 && prefix != 0 {
        assert(seq![go::<'a>(Move::DownToChild(prefix as usize))].push(Step::Commit) =~= seq![
            go(Move::DownToChild(prefix as usize)),
            Step::Commit,
        ]);
    } else if !(suffix == 0 && flagged(flags) == 0) && news.len() == 0 {
        let save = save_steps::<'a>(flags, 0, prefix, t);
        let drop = drop_steps::<'a>(flags, flags.len() as int, prefix);
        assert(steps =~= save + drop);
    }
}

/// `diff_keyed_middle` saves each run of old nodes whose keys are reused by one
/// instruction.
pub proof fn law_saves_runs<'a>(flags: Seq<bool>, base: int, t: nat)
    ensures
        instructions(save_steps::<'a>(flags, 0, base, t)).len() == runs(flags),
        forall|x: int|
            0 <= x < instructions(save_steps::<'a>(flags, 0, base, t)).len() ==> (
            #[trigger] instructions(save_steps::<'a>(flags, 0, base, t))[x])
                is SaveChildrenToTemporaries,
{
    lemma_saves_runs(flags, 0, base, t);
    assert(flags.take(0) =~= Seq::<bool>::empty());
}

proof fn lemma_saves_runs<'a>(flags: Seq<bool>, start: int, base: int, t: nat)
    requires
        0 <= start <= flags.len(),
        start == 0 || !flags[start - 1],
    ensures
        instructions(save_steps::<'a>(flags, start, base, t)).len() + runs(flags.take(start))
            == runs(flags),
        forall|x: int|
            0 <= x < instructions(save_steps::<'a>(flags, start, base, t)).len() ==> (
            #[trigger] instructions(save_steps::<'a>(flags, start, base, t))[x])
                is SaveChildrenToTemporaries,
    decreases flags.len() - start,
{
    lemma_run_end(flags, start);
    let end = run_end(flags, start);
    lemma_one_run(flags, start, end);
    if end < flags.len() {
        let init = flags.take(end + 1);
        assert(init.drop_last() =~= flags.take(end));
        lemma_saves_runs(flags, end + 1, base, (t + (end - start)) as nat);
    } else {
        assert(flags.take(end) =~= flags);
    }
}

proof fn lemma_one_run(flags: Seq<bool>, start: int, end: int)
    requires
        0 <= start <= end <= flags.len(),
        start == 0 || !flags[start - 1],
        forall|k: int| start <= k < end ==> #[trigger] flags[k],
    ensures
        runs(flags.take(end)) == runs(flags.take(start)) + if start < end {
            1int
        } else {
            0int
        },
    decreases end - start,
{
    if start < end {
        lemma_one_run(flags, start, end - 1);
        let init = flags.take(end);
        assert(init.drop_last() =~= flags.take(end - 1));
        assert(init.last() == flags[end - 1]);
        if end - 1 > start {
            assert(init[end - 2] == flags[end - 2]);
        } else if start > 0 {
            assert(init[end - 2] == flags[start - 1]);
        }
    }
}

/// `diff_keyed_middle` removes the old nodes whose keys are not reused one by
/// one, the last one first.
pub proof fn law_drops_the_rest<'a>(flags: Seq<bool>, base: int)
    requires
        0 <= base,
        base + flags.len() <= usize::MAX,
    ensures
        ({
            let edits = instructions(drop_steps::<'a>(flags, flags.len() as int, base));
            &&& edits.len() + flagged(flags) == flags.len()
            &&& forall|x: int|
                0 <= x < edits.len() ==> (#[trigger] edits[x] matches Edit::RemoveChild(i) && base
                    <= i < base + flags.len() && !flags[i - base])
            &&& forall|x: int, y: int|
                0 <= x < y < edits.len() ==> (#[trigger] edits[y])->RemoveChild_0 < (
                #[trigger] edits[x])->RemoveChild_0
        }),
{
    lemma_drops_the_rest(flags, flags.len() as int, base);
    assert(flags.take(flags.len() as int) =~= flags);
}

proof fn lemma_drops_the_rest<'a>(flags: Seq<bool>, n: int, base: int)
    requires
        0 <= base,
        base + flags.len() <= usize::MAX,
        0 <= n <= flags.len(),
    ensures
        ({
            let edits = instructions(drop_steps::<'a>(flags, n, base));
            &&& edits.len() + flagged(flags.take(n)) == n
            &&& forall|x: int|
                0 <= x < edits.len() ==> (#[trigger] edits[x] matches Edit::RemoveChild(i) && base
                    <= i < base + n && !flags[i - base])
            &&& forall|x: int, y: int|
                0 <= x < y < edits.len() ==> (#[trigger] edits[y])->RemoveChild_0 < (
                #[trigger] edits[x])->RemoveChild_0
        }),
    decreases n,
{
    if n == 0 {
        assert(flags.take(0) =~= Seq::<bool>::empty());
    } else {
        lemma_drops_the_rest(flags, n - 1, base);
        assert(flags.take(n).drop_last() =~= flags.take(n - 1));
        let rest = instructions(drop_steps::<'a>(flags, n - 1, base));
        let edits = instructions(drop_steps::<'a>(flags, n, base));
        if flags[n - 1] {
            assert(edits =~= rest);
        } else {
            assert(edits =~= seq![Edit::RemoveChild((base + n - 1) as usize)] + rest);
            assert forall|x: int| 0 <= x < edits.len() implies (#[trigger] edits[x] matches
                Edit::RemoveChild(i) && base <= i < base + n && !flags[i - base]) by {
                if x > 0 {
                    assert(edits[x] == rest[x - 1]);
                }
            }
            assert forall|x: int, y: int| 0 <= x < y < edits.len() implies (
            #[trigger] edits[y])->RemoveChild_0 < (#[trigger] edits[x])->RemoveChild_0 by {
                assert(edits[y] == rest[y - 1]);
                if x > 0 {
                    assert(edits[x] == rest[x - 1]);
                }
            }
        }
    }
}

/// Where no old node has the key of a new one, `settle_keyed_middle` creates it
/// as `create` does, and inserts it, or appends it if it is the last one and
/// nothing follows.
pub proof fn law_places_a_fresh_node<'a>(
    olds: Seq<VNode<'a>>,
    news: Seq<VNode<'a>>,
    kept: Set<usize>,
    anchor: int,
    j: int,
    t: nat,
)
    requires
        olds.len() <= u32::MAX,
        0 <= j < news.len(),
        forall|x: int| 0 <= x < olds.len() ==> (#[trigger] olds[x]).key() != news[j].key(),
    ensures
        instructions(place_one_steps(olds, news, kept, j, t)) == instructions(
            create_steps(news[j]),
        ).push(Edit::InsertBefore),
        j == news.len() - 1 ==> instructions(
            anchor_steps(olds, news, kept, false, anchor, t),
        ) == instructions(create_steps(news[j])).push(Edit::AppendChild).push(
            Edit::Go(Move::DownToReverseChild(0)),
        ),
{
    lemma_index_of_key(olds, news[j].key());
    assert(!has_key(olds, news[j].key()));
    assert(!has_source(olds, news, j));
    assert(instructions(place_one_steps(olds, news, kept, j, t)) =~= instructions(
        create_steps(news[j]),
    ).push(Edit::InsertBefore));
    if j == news.len() - 1 {
        assert(instructions(anchor_steps(olds, news, kept, false, anchor, t)) =~= instructions(
            create_steps(news[j]),
        ).push(Edit::AppendChild).push(Edit::Go(Move::DownToReverseChild(0))));
    }
}

proof fn lemma_source<'a>(olds: Seq<VNode<'a>>, news: Seq<VNode<'a>>, i: int, j: int, t: nat)
    requires
        uniquely_keyed(olds),
        olds.len() <= u32::MAX,
        0 <= i < olds.len(),
        0 <= j < news.len(),
        olds[i].key() == news[j].key(),
    ensures
        sources(olds, news)[j] == i,
        has_source(olds, news, j),
        source_temp(olds, news, j, t) == (t + flagged(wanted(olds, news).take(i))) as u32,
        temps_end(olds, news, t) == t + flagged(wanted(olds, news)),
        source_steps(olds, news, j, temps_end(olds, news, t)) == node_steps(
            olds[i],
            news[j],
            temps_end(olds, news, t),
        ),
{
    lemma_wanted(olds, news);
    lemma_flagged(wanted(olds, news).take(i));
    lemma_index_of_key(olds, news[j].key());
    let x = index_of_key(olds, news[j].key())->0;
    assert(has_key(olds, news[j].key()));
    if x < i {
        assert(olds[x].key() != olds[i].key());
    } else if i < x {
        assert(olds[i].key() != olds[x].key());
    }
}

/// `settle_keyed_middle` goes to the physical node of an old node with the key
/// of a new one, if it stays in place, or moves it, and diffs it as `diff_node`
/// does.
pub proof fn law_places_an_old_node<'a>(
    olds: Seq<VNode<'a>>,
    news: Seq<VNode<'a>>,
    kept: Set<usize>,
    i: int,
    j: int,
    t: nat,
)
    requires
        uniquely_keyed(olds),
        olds.len() <= u32::MAX,
        0 <= i < olds.len(),
        0 <= j < news.len(),
        olds[i].key() == news[j].key(),
    ensures
        ({
            let temp = (t + flagged(wanted(olds, news).take(i))) as u32;
            let t2 = t + flagged(wanted(olds, news));
            instructions(place_one_steps(olds, news, kept, j, t)) == (if kept.contains(
                j as usize,
            ) {
                seq![Edit::Go(Move::ToTempSibling(temp))]
            } else {
                seq![Edit::PushTemporary(temp), Edit::InsertBefore]
            }) + instructions(node_steps(olds[i], news[j], t2))
        }),
{
    lemma_source(olds, news, i, j, t);
    let temp = (t + flagged(wanted(olds, news).take(i))) as u32;
    let t2 = t + flagged(wanted(olds, news));
    if kept.contains(j as usize) {
        let head = seq![go::<'a>(Move::ToTempSibling(temp))];
        assert(instructions(head) =~= seq![Edit::Go(Move::ToTempSibling(temp))]);
        assert(place_one_steps(olds, news, kept, j, t) == head + node_steps(olds[i], news[j], t2));
    } else {
        let head = seq![Step::<'a>::Commit].push(Step::Do(Edit::PushTemporary(temp))).push(
            Step::Do(Edit::InsertBefore),
        );
        assert(instructions(head) =~= seq![Edit::PushTemporary(temp), Edit::InsertBefore]);
        assert(place_one_steps(olds, news, kept, j, t) == head + node_steps(olds[i], news[j], t2));
    }
}

/// Where nothing follows, `settle_keyed_middle` goes to the physical node of the
/// last new node and diffs it as `diff_node` does. It appends it unless it stays
/// in place.
pub proof fn law_starts_with_the_last_node<'a>(
    olds: Seq<VNode<'a>>,
    news: Seq<VNode<'a>>,
    kept: Set<usize>,
    anchor: int,
    i: int,
    t: nat,
)
    requires
        uniquely_keyed(olds),
        olds.len() <= u32::MAX,
        0 <= i < olds.len(),
        news.len() > 0,
        olds[i].key() == news.last().key(),
    ensures
        ({
            let temp = (t + flagged(wanted(olds, news).take(i))) as u32;
            let t2 = t + flagged(wanted(olds, news));
            let back = if same_kind(olds[i], news.last()) {
                Move::DownToTempChild(temp)
            } else {
                Move::DownToReverseChild(0)
            };
            instructions(anchor_steps(olds, news, kept, false, anchor, t)) == seq![
                Edit::Go(Move::DownToTempChild(temp)),
            ] + instructions(node_steps(olds[i], news.last(), t2)) + (if kept.contains(
                (news.len() - 1) as usize,
            ) {
                Seq::empty()
            } else {
                seq![Edit::AppendChild, Edit::Go(back)]
            })
        }),
{
    let j = news.len() - 1;
    lemma_source(olds, news, i, j, t);
    let temp = (t + flagged(wanted(olds, news).take(i))) as u32;
    let t2 = t + flagged(wanted(olds, news));
    let back = if same_kind(olds[i], news[j]) {
        Move::DownToTempChild(temp)
    } else {
        Move::DownToReverseChild(0)
    };
    let head = seq![go::<'a>(Move::DownToTempChild(temp))];
    let diffed = node_steps(olds[i], news[j], t2);
    let steps = anchor_steps(olds, news, kept, false, anchor, t);
    assert(keeps_node(olds[i], news[j]) == same_kind(olds[i], news[j]));
    assert(instructions(head) =~= seq![Edit::Go(Move::DownToTempChild(temp))]);
    if kept.contains(j as usize) {
        assert(steps == head + diffed + Seq::<Step<'a>>::empty());
    } else {
        let tail = seq![Step::<'a>::Commit].push(Step::Do(Edit::AppendChild)).push(go(back));
        assert(instructions(tail) =~= seq![Edit::AppendChild, Edit::Go(back)]);
        assert(steps == head + diffed + tail);
    }
}

/// `settle_keyed_middle` starts from the first node of what follows, or from the
/// last new node, puts the new nodes before it into place, and goes up.
pub proof fn law_settles_from_the_end<'a>(
    olds: Seq<VNode<'a>>,
    news: Seq<VNode<'a>>,
    kept: Set<usize>,
    anchor: int,
    k: int,
    t: nat,
)
    ensures
        settle_steps(olds, news, kept, true, anchor, t) == seq![
            go(Move::DownToChild(anchor as usize)),
        ] + place_steps(olds, news, kept, news.len() as int, t) + seq![go(Move::Up)],
        settle_steps(olds, news, kept, false, anchor, t) == anchor_steps(
            olds,
            news,
            kept,
            false,
            anchor,
            t,
        ) + place_steps(olds, news, kept, news.len() - 1, t) + seq![go(Move::Up)],
        k <= 0 ==> place_steps(olds, news, kept, k, t) == Seq::<Step<'a>>::empty(),
        k > 0 ==> place_steps(olds, news, kept, k, t) == place_one_steps(
            olds,
            news,
            kept,
            k - 1,
            t,
        ) + place_steps(olds, news, kept, k - 1, t),
{
}

} // verus!
