//! How many physical nodes instructions move.
use crate::changelist::Edit;
use crate::changelist::Step;
use crate::dom::Loose;
use crate::dom::Machine;
use crate::dom::PNode;
use crate::dom::lemma_follow_empty;
use crate::dom::lemma_follow_push;
use vstd::prelude::*;

verus! {

// ---------------------------------------------------------------------------
// Moves on a machine
// ---------------------------------------------------------------------------

/// Whether an instruction moves a node of the tree: what it puts into place
/// stands in the tree already, and is not a new node.
pub open spec fn is_move(m: Machine, e: Edit) -> bool {
    match e {
        Edit::AppendChild => m.loose.len() == 0,
        Edit::InsertBefore => m.loose.len() > 0 && m.loose.last() is Moving,
        _ => false,
    }
}

/// How often a machine that follows the steps moves a node of the tree.
pub open spec fn moves_on(m: Machine, steps: Seq<Step>) -> nat
    decreases steps.len(),
{
    if steps.len() == 0 {
        0
    } else {
        moves_on(m, steps.drop_last()) + match (m.follow(steps.drop_last()), steps.last()) {
            (Some(x), Step::Do(e)) => if is_move(x, e) {
                1nat
            } else {
                0nat
            },
            _ => 0nat,
        }
    }
}

/// How many new nodes are on the stack and not in the tree.
pub open spec fn new_nodes(loose: Seq<Loose>) -> nat
    decreases loose.len(),
{
    if loose.len() == 0 {
        0
    } else {
        new_nodes(loose.drop_last()) + if loose.last() is New {
            1nat
        } else {
            0nat
        }
    }
}

/// One for an instruction that puts a node into place, minus one for an
/// instruction that makes one.
pub open spec fn put_or_made(e: Edit) -> int {
    match e {
        Edit::AppendChild => 1,
        Edit::InsertBefore => 1,
        Edit::ReplaceWith => 1,
        Edit::CreateTextNode(_) => -1,
        Edit::CreateElement(_) => -1,
        Edit::CreateElementNs { .. } => -1,
        _ => 0,
    }
}

/// What a step adds to the moves.
pub open spec fn step_moves(step: Step) -> int {
    match step {
        Step::Do(e) => put_or_made(e),
        _ => 0,
    }
}

/// How many moves steps ask for: how many nodes they put into place that they
/// have not made.
pub open spec fn moves_in(steps: Seq<Step>) -> int
    decreases steps.len(),
{
    if steps.len() == 0 {
        0
    } else {
        moves_in(steps.drop_last()) + step_moves(steps.last())
    }
}

proof fn lemma_new_nodes_focus(loose: Seq<Loose>, x: Loose)
    requires
        loose.len() > 0,
        loose.last() is New,
        x is New,
    ensures
        new_nodes(loose.update(loose.len() - 1, x)) == new_nodes(loose),
{
    let b = loose.update(loose.len() - 1, x);
    assert(b.drop_last() =~= loose.drop_last());
}

proof fn lemma_with_focus(m: Machine, n: PNode)
    requires
        m.has_focus(),
    ensures
        new_nodes(m.with_focus(n).loose) == new_nodes(m.loose),
{
    if m.loose.len() > 0 {
        lemma_new_nodes_focus(m.loose, Loose::New(n));
    }
}

proof fn lemma_new_nodes_push(loose: Seq<Loose>, x: Loose)
    ensures
        new_nodes(loose.push(x)) == new_nodes(loose) + if x is New {
            1int
        } else {
            0int
        },
{
    assert(loose.push(x).drop_last() =~= loose);
}

proof fn lemma_execute(m: Machine, e: Edit)
    requires
        m.execute(e) is Some,
    ensures
        ({
            let after = m.execute(e)->0;
            put_or_made(e) == new_nodes(m.loose) - new_nodes(after.loose) + if is_move(m, e) {
                1int
            } else {
                0int
            }
        }),
{
    let after = m.execute(e)->0;
    match e {
        Edit::Go(_) => {
            assert(after.loose == m.loose);
        },
        Edit::AppendChild => {
            if m.loose.len() > 0 {
                let below = Machine { loose: m.loose.drop_last(), ..m };
                let n = m.loose.last()->New_0;
                lemma_with_focus(
                    below,
                    PNode { children: below.focus().children.push(n), ..below.focus() },
                );
            }
        },
        Edit::InsertBefore | Edit::ReplaceWith => {
            assert(m.loose.drop_last() =~= Seq::empty());
            assert(after.loose =~= Seq::empty());
        },
        Edit::CreateTextNode(_) | Edit::CreateElement(_) | Edit::CreateElementNs { .. } => {
            lemma_new_nodes_push(m.loose, after.loose.last());
            assert(after.loose =~= m.loose.push(after.loose.last()));
        },
        Edit::PushTemporary(temp) => {
            lemma_new_nodes_push(m.loose, Loose::Moving(m.temps[temp as nat]));
        },
        Edit::RemoveSelfAndNextSiblings
        | Edit::SaveChildrenToTemporaries { .. }
        | Edit::RemoveChild(_) => {
            assert(after.loose == m.loose);
        },
        Edit::SetText(_)
        | Edit::SetAttribute { .. }
        | Edit::RemoveAttribute(_)
        | Edit::NewEventListener(_)
        | Edit::UpdateEventListener(_)
        | Edit::RemoveEventListener(_) => {
            if m.loose.len() > 0 {
                assert(after.loose =~= m.loose.update(m.loose.len() - 1, after.loose.last()));
                lemma_new_nodes_focus(m.loose, after.loose.last());
            } else {
                assert(after.loose =~= m.loose);
            }
        },
    }
}

proof fn lemma_moves_on<'a>(m: Machine, steps: Seq<Step<'a>>)
    requires
        m.follow(steps) is Some,
    ensures
        moves_on(m, steps) == moves_in(steps) + new_nodes(m.follow(steps)->0.loose) - new_nodes(
            m.loose,
        ),
    decreases steps.len(),
{
    broadcast use {lemma_follow_empty, lemma_follow_push};

    if steps.len() == 0 {
        assert(steps =~= Seq::empty());
    } else {
        assert(steps =~= steps.drop_last().push(steps.last()));
        lemma_moves_on(m, steps.drop_last());
        match steps.last() {
            Step::Do(e) => {
                lemma_execute(m.follow(steps.drop_last())->0, e);
            },
            _ => {},
        }
    }
}

/// A machine that follows steps, with no loose node before and after, moves as
/// many nodes of the tree as the steps ask for.
pub proof fn law_moves<'a>(m: Machine, steps: Seq<Step<'a>>, after: Machine)
    requires
        m.follow(steps) == Some(after),
        m.loose.len() == 0,
        after.loose.len() == 0,
    ensures
        moves_on(m, steps) == moves_in(steps),
{
    lemma_moves_on(m, steps);
}

// ---------------------------------------------------------------------------
// Moves in steps
// ---------------------------------------------------------------------------

pub broadcast proof fn lemma_moves_empty<'a>()
    ensures
        #[trigger] moves_in(Seq::<Step<'a>>::empty()) == 0,
{
}

pub broadcast proof fn lemma_moves_push<'a>(a: Seq<Step<'a>>, x: Step<'a>)
    ensures
        #[trigger] moves_in(a.push(x)) == moves_in(a) + step_moves(x),
{
    assert(a.push(x).drop_last() =~= a);
}

pub broadcast proof fn lemma_moves_add<'a>(a: Seq<Step<'a>>, b: Seq<Step<'a>>)
    ensures
        #[trigger] moves_in(a + b) == moves_in(a) + moves_in(b),
    decreases b.len(),
{
    if b.len() == 0 {
        assert(a + b =~= a);
    } else {
        assert((a + b).drop_last() =~= a + b.drop_last());
        lemma_moves_add(a, b.drop_last());
    }
}

pub proof fn lemma_no_moves<'a>(steps: Seq<Step<'a>>)
    requires
        forall|i: int| 0 <= i < steps.len() ==> step_moves(#[trigger] steps[i]) == 0,
    ensures
        moves_in(steps) == 0,
    decreases steps.len(),
{
    if steps.len() > 0 {
        lemma_no_moves(steps.drop_last());
    }
}

} // verus!
