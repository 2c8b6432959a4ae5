//! The change list: the instructions that a diff emits.
//!
//! The instructions are for a stack machine whose stack holds physical nodes.
//! Moves over the tree are not emitted at once. They are kept back until
//! [`EditList::commit_traversal`], and every other instruction may only be
//! emitted when no move is kept back.
use crate::vnode::Listener;
use vstd::prelude::*;

verus! {

/// A move of the top of the stack over the physical tree.
#[derive(Clone, Copy, Debug, PartialEq, Eq)]
pub enum Move {
    /// `[... node]` to `[... node first_child]`
    Down,
    /// `[... node]` to `[... node child]`, where `child` is the child at the index
    DownToChild(usize),
    /// as `DownToChild`, with the index counted from the last child
    DownToReverseChild(usize),
    /// `[... node]` to `[... node child]`, where `child` is the child saved in the temporary
    DownToTempChild(u32),
    /// `[... parent node]` to `[... parent]`
    Up,
    /// `[... parent node]` to `[... parent sibling]`, where `sibling` is the child of `parent`
    /// at the index
    ToSibling(usize),
    /// `[... parent node]` to `[... parent sibling]`, where `sibling` is the child of `parent`
    /// saved in the temporary
    ToTempSibling(u32),
}

/// An instruction of the change list.
#[derive(Clone, Copy, Debug, PartialEq, Eq)]
pub enum Edit<'a> {
    /// a committed move
    Go(Move),
    /// `[... node]`: set the text of `node`; for an element, its text content
    SetText(&'a str),
    /// `[... parent child]` to `[... parent]`: remove `child` and its next siblings
    RemoveSelfAndNextSiblings,
    /// `[... old new]` to `[... new]`: put `new` in the place of `old`
    ReplaceWith,
    /// `[... node]`
    SetAttribute { name: &'a str, value: &'a str, is_namespaced: bool },
    /// `[... node]`
    RemoveAttribute(&'a str),
    /// `[... parent child]` to `[... parent]`: make `child` the last child of `parent`
    AppendChild,
    /// `[...]` to `[... node]`
    CreateTextNode(&'a str),
    /// `[...]` to `[... node]`
    CreateElement(&'a str),
    /// `[...]` to `[... node]`
    CreateElementNs { tag_name: &'a str, namespace: &'a str },
    /// `[... node]`
    NewEventListener(Listener<'a>),
    /// `[... node]`
    UpdateEventListener(Listener<'a>),
    /// `[... node]`
    RemoveEventListener(&'a str),
    /// `[... node]`: save the children from `start` up to `end` in the temporaries from `temp` on
    SaveChildrenToTemporaries { temp: u32, start: usize, end: usize },
    /// `[...]` to `[... node]`, where `node` is the node saved in the temporary
    PushTemporary(u32),
    /// `[... parent successor node]` to `[... parent node]`: put `node` right before `successor`
    InsertBefore,
    /// `[... node]`: remove the child at the index
    RemoveChild(usize),
}

/// What a call on the change list asks of it.
pub enum Step<'a> {
    /// Commit the moves that are kept back.
    Commit,
    /// Let the next temporary be the given one.
    Temp(nat),
    /// Keep back a move, or emit another instruction.
    Do(Edit<'a>),
}

/// The state of a change list.
///
/// `stream` holds every instruction in the order in which it was asked for, the
/// moves that are kept back last. The first `committed` of them are emitted.
pub struct ListState<'a> {
    pub stream: Seq<Edit<'a>>,
    pub committed: nat,
    pub next_temporary: nat,
}

impl<'a> ListState<'a> {
    /// No move is kept back.
    pub open spec fn is_committed(self) -> bool {
        self.committed == self.stream.len()
    }

    /// There are so many temporaries left.
    pub open spec fn has_room(self, n: nat) -> bool {
        n == 0 || self.next_temporary + n <= u32::MAX
    }

    /// The state after one step.
    pub open spec fn apply(self, step: Step<'a>) -> ListState<'a> {
        match step {
            Step::Commit => ListState { committed: self.stream.len(), ..self },
            Step::Temp(t) => ListState { next_temporary: t, ..self },
            Step::Do(Edit::Go(m)) => ListState { stream: self.stream.push(Edit::Go(m)), ..self },
            Step::Do(e) => ListState {
                stream: self.stream.push(e),
                committed: self.stream.len() + 1,
                next_temporary: match e {
                    Edit::SaveChildrenToTemporaries { temp, start, end } => (self.next_temporary + (
                    end - start)) as nat,
                    _ => self.next_temporary,
                },
            },
        }
    }

    /// The state after some steps, the first one first.
    pub open spec fn perform(self, steps: Seq<Step<'a>>) -> ListState<'a>
        decreases steps.len(),
    {
        if steps.len() == 0 {
            self
        } else {
            self.perform(steps.drop_last()).apply(steps.last())
        }
    }
}

pub broadcast proof fn lemma_perform_empty<'a>(s: ListState<'a>)
    ensures
        #[trigger] s.perform(Seq::<Step<'a>>::empty()) == s,
{
}

pub broadcast proof fn lemma_perform_push<'a>(s: ListState<'a>, a: Seq<Step<'a>>, x: Step<'a>)
    ensures
        #[trigger] s.perform(a.push(x)) == s.perform(a).apply(x),
{
    assert(a.push(x).drop_last() =~= a);
}

/// To perform one list of steps after another is to perform the two in one.
pub broadcast proof fn lemma_perform_add<'a>(s: ListState<'a>, a: Seq<Step<'a>>, b: Seq<Step<'a>>)
    ensures
        #[trigger] s.perform(a + b) == s.perform(a).perform(b),
    decreases b.len(),
{
    if b.len() == 0 {
        assert(a + b =~= a);
    } else {
        assert((a + b).drop_last() =~= a + b.drop_last());
        lemma_perform_add(s, a, b.drop_last());
    }
}

/// The change list.
#[derive(Debug)]
pub struct EditList<'a> {
    edits: Vec<Edit<'a>>,
    pending: Vec<Move>,
    next_temporary: u32,
}

impl<'a> View for EditList<'a> {
    type V = ListState<'a>;

    closed spec fn view(&self) -> ListState<'a> {
        ListState {
            stream: self.edits@ + self.pending@.map_values(|m: Move| Edit::<'a>::Go(m)),
            committed: self.edits@.len(),
            next_temporary: self.next_temporary as nat,
        }
    }
}

impl<'a> EditList<'a> {
    /// An empty change list.
    pub fn new() -> (r: Self)
        ensures
            r@.stream == Seq::<Edit<'a>>::empty(),
            r@.committed == 0,
            r@.next_temporary == 0,
    {
        EditList { edits: Vec::new(), pending: Vec::new(), next_temporary: 0 }
    }

    /// Temporaries are numbered by a `u32`.
    pub proof fn lemma_next_temporary(self)
        ensures
            self@.next_temporary <= u32::MAX,
    {
    }

    /// The instructions emitted so far.
    pub fn edits(&self) -> (r: &Vec<Edit<'a>>)
        ensures
            r@ == self@.stream.take(self@.committed as int),
    {
        proof {
            assert(self@.stream.take(self@.committed as int) =~= self.edits@);
        }
        &self.edits
    }

    /// The moves that are kept back.
    pub fn pending_moves(&self) -> (r: &Vec<Move>)
        ensures
            r@.map_values(|m: Move| Edit::<'a>::Go(m)) == self@.stream.skip(self@.committed as int),
    {
        proof {
            assert(self@.stream.skip(self@.committed as int) =~= self.pending@.map_values(
                |m: Move| Edit::<'a>::Go(m),
            ));
        }
        &self.pending
    }

    fn keep_back(&mut self, m: Move)
        ensures
            final(self)@ == old(self)@.apply(Step::Do(Edit::Go(m))),
    {
        self.pending.push(m);
        proof {
            assert(self@.stream =~= old(self)@.stream.push(Edit::Go(m)));
        }
    }

    fn emit(&mut self, e: Edit<'a>)
        requires
            old(self)@.is_committed(),
            !(e is Go),
            !(e is SaveChildrenToTemporaries),
        ensures
            final(self)@ == old(self)@.apply(Step::Do(e)),
    {
        self.edits.push(e);
        proof {
            assert(self@.stream =~= old(self)@.stream.push(e));
        }
    }

    /// `[... node]` to `[... node first_child]`
    pub fn go_down(&mut self)
        ensures
            final(self)@ == old(self)@.apply(Step::Do(Edit::Go(Move::Down))),
    {
        self.keep_back(Move::Down)
    }

    /// `[... node]` to `[... node child]`
    pub fn go_down_to_child(&mut self, index: usize)
        ensures
            final(self)@ == old(self)@.apply(Step::Do(Edit::Go(Move::DownToChild(index)))),
    {
        self.keep_back(Move::DownToChild(index))
    }

    /// `[... node]` to `[... node child]`, the index counted from the last child
    pub fn go_down_to_reverse_child(&mut self, index: usize)
        ensures
            final(self)@ == old(self)@.apply(Step::Do(Edit::Go(Move::DownToReverseChild(index)))),
    {
        self.keep_back(Move::DownToReverseChild(index))
    }

    /// `[... node]` to `[... node child]`, where `child` is saved in a temporary
    pub fn go_down_to_temp_child(&mut self, temp: u32)
        ensures
            final(self)@ == old(self)@.apply(Step::Do(Edit::Go(Move::DownToTempChild(temp)))),
    {
        self.keep_back(Move::DownToTempChild(temp))
    }

    /// `[... parent node]` to `[... parent]`
    pub fn go_up(&mut self)
        ensures
            final(self)@ == old(self)@.apply(Step::Do(Edit::Go(Move::Up))),
    {
        self.keep_back(Move::Up)
    }

    /// `[... parent node]` to `[... parent sibling]`
    pub fn go_to_sibling(&mut self, index: usize)
        ensures
            final(self)@ == old(self)@.apply(Step::Do(Edit::Go(Move::ToSibling(index)))),
    {
        self.keep_back(Move::ToSibling(index))
    }

    /// `[... parent node]` to `[... parent sibling]`, where `sibling` is saved in a temporary
    pub fn go_to_temp_sibling(&mut self, temp: u32)
        ensures
            final(self)@ == old(self)@.apply(Step::Do(Edit::Go(Move::ToTempSibling(temp)))),
    {
        self.keep_back(Move::ToTempSibling(temp))
    }

    /// Emits the moves that are kept back.
    pub fn commit_traversal(&mut self)
        ensures
            final(self)@ == old(self)@.apply(Step::Commit),
    {
        let mut i: usize = 0;
        let ghost before = self.edits@;
        while i < self.pending.len()
            invariant
                i <= self.pending.len(),
                self.pending == old(self).pending,
                self.next_temporary == old(self).next_temporary,
                self.edits@ == before + self.pending@.take(i as int).map_values(
                    |m: Move| Edit::<'a>::Go(m),
                ),
            decreases self.pending.len() - i,
        {
            let m = self.pending[i];
            self.edits.push(Edit::Go(m));
            i += 1;
            proof {
                assert(self.pending@.take(i as int) =~= self.pending@.take(i - 1).push(m));
                assert(self.edits@ =~= before + self.pending@.take(i as int).map_values(
                    |m: Move| Edit::<'a>::Go(m),
                ));
            }
        }
        proof {
            assert(self.pending@.take(i as int) =~= self.pending@);
        }
        self.pending.clear();
        proof {
            assert(self@.stream =~= old(self)@.stream);
        }
    }

    /// Whether no move is kept back.
    pub fn traversal_is_committed(&self) -> (r: bool)
        ensures
            r == self@.is_committed(),
    {
        self.pending.len() == 0
    }

    /// The first temporary that is not in use.
    pub fn next_temporary(&self) -> (r: u32)
        ensures
            r == self@.next_temporary,
    {
        self.next_temporary
    }

    /// Lets the temporaries from the given one on be used anew.
    pub fn set_next_temporary(&mut self, next_temporary: u32)
        ensures
            final(self)@ == old(self)@.apply(Step::Temp(next_temporary as nat)),
    {
        self.next_temporary = next_temporary;
    }

    /// Saves the children from `start` up to `end` in temporaries, and returns the first of these.
    pub fn save_children_to_temporaries(&mut self, start: usize, end: usize) -> (temp: u32)
        requires
            old(self)@.is_committed(),
            start < end,
            old(self)@.next_temporary + (end - start) <= u32::MAX,
        ensures
            temp == old(self)@.next_temporary,
            final(self)@ == old(self)@.apply(
                Step::Do(Edit::SaveChildrenToTemporaries { temp, start, end }),
            ),
    {
        let temp: u32 = self.next_temporary;
        self.next_temporary = temp + (end - start) as u32;
        self.edits.push(Edit::SaveChildrenToTemporaries { temp, start, end });
        proof {
            assert(self@.stream =~= old(self)@.stream.push(
                Edit::SaveChildrenToTemporaries { temp, start, end },
            ));
        }
        temp
    }

    /// `[...]` to `[... node]`, where `node` is saved in a temporary
    pub fn push_temporary(&mut self, temp: u32)
        requires
            old(self)@.is_committed(),
        ensures
            final(self)@ == old(self)@.apply(Step::Do(Edit::PushTemporary(temp))),
    {
        self.emit(Edit::PushTemporary(temp))
    }

    /// `[... parent]`: removes the child at the index
    pub fn remove_child(&mut self, child: usize)
        requires
            old(self)@.is_committed(),
        ensures
            final(self)@ == old(self)@.apply(Step::Do(Edit::RemoveChild(child))),
    {
        self.emit(Edit::RemoveChild(child))
    }

    /// `[... parent successor node]` to `[... parent node]`
    pub fn insert_before(&mut self)
        requires
            old(self)@.is_committed(),
        ensures
            final(self)@ == old(self)@.apply(Step::Do(Edit::InsertBefore)),
    {
        self.emit(Edit::InsertBefore)
    }

    /// `[... node]`
    pub fn set_text(&mut self, text: &'a str)
        requires
            old(self)@.is_committed(),
        ensures
            final(self)@ == old(self)@.apply(Step::Do(Edit::SetText(text))),
    {
        self.emit(Edit::SetText(text))
    }

    /// `[... parent child]` to `[... parent]`
    pub fn remove_self_and_next_siblings(&mut self)
        requires
            old(self)@.is_committed(),
        ensures
            final(self)@ == old(self)@.apply(Step::Do(Edit::RemoveSelfAndNextSiblings)),
    {
        self.emit(Edit::RemoveSelfAndNextSiblings)
    }

    /// `[... old new]` to `[... new]`
    pub fn replace_with(&mut self)
        requires
            old(self)@.is_committed(),
        ensures
            final(self)@ == old(self)@.apply(Step::Do(Edit::ReplaceWith)),
    {
        self.emit(Edit::ReplaceWith)
    }

    /// `[... node]`
    pub fn set_attribute(&mut self, name: &'a str, value: &'a str, is_namespaced: bool)
        requires
            old(self)@.is_committed(),
        ensures
            final(self)@ == old(self)@.apply(
                Step::Do(Edit::SetAttribute { name, value, is_namespaced }),
            ),
    {
        self.emit(Edit::SetAttribute { name, value, is_namespaced })
    }

    /// `[... node]`
    pub fn remove_attribute(&mut self, name: &'a str)
        requires
            old(self)@.is_committed(),
        ensures
            final(self)@ == old(self)@.apply(Step::Do(Edit::RemoveAttribute(name))),
    {
        self.emit(Edit::RemoveAttribute(name))
    }

    /// `[... parent child]` to `[... parent]`
    pub fn append_child(&mut self)
        requires
            old(self)@.is_committed(),
        ensures
            final(self)@ == old(self)@.apply(Step::Do(Edit::AppendChild)),
    {
        self.emit(Edit::AppendChild)
    }

    /// `[...]` to `[... node]`
    pub fn create_text_node(&mut self, text: &'a str)
        requires
            old(self)@.is_committed(),
        ensures
            final(self)@ == old(self)@.apply(Step::Do(Edit::CreateTextNode(text))),
    {
        self.emit(Edit::CreateTextNode(text))
    }

    /// `[...]` to `[... node]`
    pub fn create_element(&mut self, tag_name: &'a str)
        requires
            old(self)@.is_committed(),
        ensures
            final(self)@ == old(self)@.apply(Step::Do(Edit::CreateElement(tag_name))),
    {
        self.emit(Edit::CreateElement(tag_name))
    }

    /// `[...]` to `[... node]`
    pub fn create_element_ns(&mut self, tag_name: &'a str, namespace: &'a str)
        requires
            old(self)@.is_committed(),
        ensures
            final(self)@ == old(self)@.apply(
                Step::Do(Edit::CreateElementNs { tag_name, namespace }),
            ),
    {
        self.emit(Edit::CreateElementNs { tag_name, namespace })
    }

    /// `[... node]`
    pub fn new_event_listener(&mut self, listener: &Listener<'a>)
        requires
            old(self)@.is_committed(),
        ensures
            final(self)@ == old(self)@.apply(Step::Do(Edit::NewEventListener(*listener))),
    {
        self.emit(Edit::NewEventListener(*listener))
    }

    /// `[... node]`
    pub fn update_event_listener(&mut self, listener: &Listener<'a>)
        requires
            old(self)@.is_committed(),
        ensures
            final(self)@ == old(self)@.apply(Step::Do(Edit::UpdateEventListener(*listener))),
    {
        self.emit(Edit::UpdateEventListener(*listener))
    }

    /// `[... node]`
    pub fn remove_event_listener(&mut self, event: &'a str)
        requires
            old(self)@.is_committed(),
        ensures
            final(self)@ == old(self)@.apply(Step::Do(Edit::RemoveEventListener(event))),
    {
        self.emit(Edit::RemoveEventListener(event))
    }
}

} // verus!
