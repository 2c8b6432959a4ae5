//! The physical DOM, and what the instructions of a change list do to it.
//!
//! The instructions run on a stack machine. The lower part of its stack is a
//! path: each node on it is a child of the node beneath it. Above the path lie
//! loose nodes: new ones that are not in the tree yet, and nodes that are about
//! to be moved.
use crate::changelist::Edit;
use crate::changelist::ListState;
use crate::changelist::Move;
use crate::changelist::Step;
use crate::steps::go;
use crate::vnode::Attribute;
use crate::vnode::Listener;
use crate::vnode::VElement;
use crate::vnode::VNode;
use vstd::prelude::*;

verus! {

/// What a physical node is, apart from its children.
#[verifier::ext_equal]
pub enum Label {
    Text(Seq<char>),
    Element {
        tag: Seq<char>,
        namespace: Option<Seq<char>>,
        attributes: Map<Seq<char>, Seq<char>>,
        listeners: Map<Seq<char>, u64>,
    },
}

/// A physical node. Its `id` is its identity: it stays the same while the node
/// is changed or moved, and no node that is created later gets it.
#[verifier::ext_equal]
pub struct PNode {
    pub id: nat,
    pub label: Label,
    pub children: Seq<PNode>,
}

/// A node on the path, and which of its children is next on the path. What
/// `node` has at that child is out of date as long as it is.
#[verifier::ext_equal]
pub struct Frame {
    pub node: PNode,
    pub hole: int,
}

/// A node on the stack above the path.
#[verifier::ext_equal]
pub enum Loose {
    /// a new node
    New(PNode),
    /// the sibling with the identity, about to be moved
    Moving(nat),
}

/// The state of the stack machine: `[frames.. top loose..]`.
#[verifier::ext_equal]
pub struct Machine {
    pub frames: Seq<Frame>,
    pub top: PNode,
    pub loose: Seq<Loose>,
    /// the identities of the nodes saved in the temporaries
    pub temps: Map<nat, nat>,
    /// the identity that the next new node gets
    pub fresh: nat,
}

/// The index of the node with the identity.
pub open spec fn index_of_id(kids: Seq<PNode>, id: nat) -> int {
    choose|i: int| 0 <= i < kids.len() && (#[trigger] kids[i]).id == id
}

/// Whether one of the nodes has the identity.
pub open spec fn has_id(kids: Seq<PNode>, id: nat) -> bool {
    exists|i: int| 0 <= i < kids.len() && (#[trigger] kids[i]).id == id
}

impl Machine {
    /// Whether the node on top of the stack can be changed in place.
    pub open spec fn has_focus(self) -> bool {
        self.loose.len() == 0 || self.loose.last() is New
    }

    /// The node on top of the stack.
    pub open spec fn focus(self) -> PNode {
        if self.loose.len() == 0 {
            self.top
        } else {
            self.loose.last()->New_0
        }
    }

    /// The machine with another node on top of the stack.
    pub open spec fn with_focus(self, n: PNode) -> Machine {
        if self.loose.len() == 0 {
            Machine { top: n, ..self }
        } else {
            Machine { loose: self.loose.update(self.loose.len() - 1, Loose::New(n)), ..self }
        }
    }

    /// `[... node]` to `[... node child]`
    pub open spec fn descend(self, i: int) -> Option<Machine> {
        if self.loose.len() == 0 && 0 <= i < self.top.children.len() {
            Some(
                Machine {
                    frames: self.frames.push(Frame { node: self.top, hole: i }),
                    top: self.top.children[i],
                    ..self
                },
            )
        } else {
            None
        }
    }

    /// The node beneath the top of the path, brought up to date.
    pub open spec fn parent(self) -> PNode {
        let f = self.frames.last();
        PNode { children: f.node.children.update(f.hole, self.top), ..f.node }
    }

    /// `[... parent node]` to `[... parent]`
    pub open spec fn ascend(self) -> Option<Machine> {
        if self.loose.len() == 0 && self.frames.len() > 0 {
            Some(Machine { frames: self.frames.drop_last(), top: self.parent(), ..self })
        } else {
            None
        }
    }

    /// `[... node]` to `[... node child]`, where `child` is saved in the temporary
    pub open spec fn descend_to_temp(self, temp: u32) -> Option<Machine> {
        if self.temps.contains_key(temp as nat) && has_id(
            self.top.children,
            self.temps[temp as nat],
        ) {
            self.descend(index_of_id(self.top.children, self.temps[temp as nat]))
        } else {
            None
        }
    }

    /// What a move does.
    pub open spec fn go(self, m: Move) -> Option<Machine> {
        match m {
            Move::Down => self.descend(0),
            Move::DownToChild(i) => self.descend(i as int),
            Move::DownToReverseChild(i) => self.descend(self.top.children.len() - 1 - i),
            Move::DownToTempChild(temp) => self.descend_to_temp(temp),
            Move::Up => self.ascend(),
            Move::ToSibling(i) => match self.ascend() {
                Some(up) => up.descend(i as int),
                None => None,
            },
            Move::ToTempSibling(temp) => match self.ascend() {
                Some(up) => up.descend_to_temp(temp),
                None => None,
            },
        }
    }

    /// `[...]` to `[... node]`, where `node` is a new node
    pub open spec fn create(self, label: Label) -> Machine {
        Machine {
            loose: self.loose.push(
                Loose::New(PNode { id: self.fresh, label, children: Seq::empty() }),
            ),
            fresh: self.fresh + 1,
            ..self
        }
    }

    /// Sets the text of a text, or the text content of an element. No text
    /// content is no child.
    pub open spec fn set_text(self, text: Seq<char>) -> Option<Machine> {
        if !self.has_focus() {
            None
        } else {
            match self.focus().label {
                Label::Text(_) => Some(
                    self.with_focus(PNode { label: Label::Text(text), ..self.focus() }),
                ),
                Label::Element { .. } => if text.len() == 0 {
                    Some(self.with_focus(PNode { children: Seq::empty(), ..self.focus() }))
                } else {
                    let child = PNode {
                        id: self.fresh,
                        label: Label::Text(text),
                        children: Seq::empty(),
                    };
                    Some(
                        Machine { fresh: self.fresh + 1, ..self }.with_focus(
                            PNode { children: seq![child], ..self.focus() },
                        ),
                    )
                },
            }
        }
    }

    /// Changes the attributes and listeners of an element.
    pub open spec fn relabel(
        self,
        attributes: spec_fn(Map<Seq<char>, Seq<char>>) -> Map<Seq<char>, Seq<char>>,
        listeners: spec_fn(Map<Seq<char>, u64>) -> Map<Seq<char>, u64>,
    ) -> Option<Machine> {
        if !self.has_focus() {
            None
        } else {
            match self.focus().label {
                Label::Text(_) => None,
                Label::Element { tag, namespace, attributes: a, listeners: l } => Some(
                    self.with_focus(
                        PNode {
                            label: Label::Element {
                                tag,
                                namespace,
                                attributes: attributes(a),
                                listeners: listeners(l),
                            },
                            ..self.focus()
                        },
                    ),
                ),
            }
        }
    }

    /// `[... parent child]` to `[... parent]`, where `child` becomes the last child
    pub open spec fn append_child(self) -> Option<Machine> {
        if self.loose.len() == 0 {
            if self.frames.len() == 0 {
                None
            } else {
                let f = self.frames.last();
                Some(
                    Machine {
                        frames: self.frames.drop_last(),
                        top: PNode {
                            children: f.node.children.remove(f.hole).push(self.top),
                            ..f.node
                        },
                        ..self
                    },
                )
            }
        } else {
            let below = Machine { loose: self.loose.drop_last(), ..self };
            match self.loose.last() {
                Loose::New(n) => if below.has_focus() {
                    Some(
                        below.with_focus(
                            PNode { children: below.focus().children.push(n), ..below.focus() },
                        ),
                    )
                } else {
                    None
                },
                Loose::Moving(_) => None,
            }
        }
    }

    /// `[... parent successor node]` to `[... parent node]`, where `node` comes
    /// to stand right before `successor`
    pub open spec fn insert_before(self) -> Option<Machine> {
        if self.loose.len() != 1 || self.frames.len() == 0 {
            None
        } else {
            let f = self.frames.last();
            let kids = self.parent().children;
            match self.loose[0] {
                Loose::New(n) => Some(
                    Machine {
                        frames: self.frames.drop_last().push(
                            Frame {
                                node: PNode { children: kids.insert(f.hole, n), ..f.node },
                                hole: f.hole,
                            },
                        ),
                        top: n,
                        loose: Seq::empty(),
                        ..self
                    },
                ),
                Loose::Moving(id) => {
                    let q = index_of_id(kids, id);
                    let at = if q < f.hole {
                        f.hole - 1
                    } else {
                        f.hole
                    };
                    if has_id(kids, id) && q != f.hole {
                        Some(
                            Machine {
                                frames: self.frames.drop_last().push(
                                    Frame {
                                        node: PNode {
                                            children: kids.remove(q).insert(at, kids[q]),
                                            ..f.node
                                        },
                                        hole: at,
                                    },
                                ),
                                top: kids[q],
                                loose: Seq::empty(),
                                ..self
                            },
                        )
                    } else {
                        None
                    }
                },
            }
        }
    }

    /// `[... parent child]` to `[... parent]`, where `child` and its next siblings go away
    pub open spec fn remove_self_and_next_siblings(self) -> Option<Machine> {
        if self.loose.len() == 0 && self.frames.len() > 0 {
            let f = self.frames.last();
            Some(
                Machine {
                    frames: self.frames.drop_last(),
                    top: PNode { children: f.node.children.take(f.hole), ..f.node },
                    ..self
                },
            )
        } else {
            None
        }
    }

    /// `[... old new]` to `[... new]`, where `new` takes the place of `old`
    pub open spec fn replace_with(self) -> Option<Machine> {
        if self.loose.len() == 1 && self.loose[0] is New {
            Some(Machine { top: self.loose[0]->New_0, loose: Seq::empty(), ..self })
        } else {
            None
        }
    }

    /// `[... node]`, where the child at the index goes away
    pub open spec fn remove_child(self, i: int) -> Option<Machine> {
        if self.loose.len() == 0 && 0 <= i < self.top.children.len() {
            Some(
                Machine {
                    top: PNode { children: self.top.children.remove(i), ..self.top },
                    ..self
                },
            )
        } else {
            None
        }
    }

    /// `[... node]`, where the children from `start` up to `end` are saved
    pub open spec fn save_children(self, temp: int, start: int, end: int) -> Option<Machine> {
        if self.loose.len() == 0 && 0 <= start <= end <= self.top.children.len() {
            Some(
                Machine {
                    temps: Map::new(
                        |k: nat| temp <= k < temp + (end - start) || self.temps.contains_key(k),
                        |k: nat|
                            if temp <= k < temp + (end - start) {
                                self.top.children[start + (k - temp)].id
                            } else {
                                self.temps[k]
                            },
                    ),
                    ..self
                },
            )
        } else {
            None
        }
    }

    /// What an instruction does; nothing where it cannot be carried out.
    pub open spec fn execute(self, e: Edit) -> Option<Machine> {
        match e {
            Edit::Go(m) => self.go(m),
            Edit::SetText(text) => self.set_text(text@),
            Edit::RemoveSelfAndNextSiblings => self.remove_self_and_next_siblings(),
            Edit::ReplaceWith => self.replace_with(),
            Edit::SetAttribute { name, value, is_namespaced } => self.relabel(
                |a: Map<Seq<char>, Seq<char>>| a.insert(name@, value@),
                |l: Map<Seq<char>, u64>| l,
            ),
            Edit::RemoveAttribute(name) => self.relabel(
                |a: Map<Seq<char>, Seq<char>>| a.remove(name@),
                |l: Map<Seq<char>, u64>| l,
            ),
            Edit::AppendChild => self.append_child(),
            Edit::CreateTextNode(text) => Some(self.create(Label::Text(text@))),
            Edit::CreateElement(tag_name) => Some(self.create(empty_element(tag_name@, None))),
            Edit::CreateElementNs { tag_name, namespace } => Some(
                self.create(empty_element(tag_name@, Some(namespace@))),
            ),
            Edit::NewEventListener(listener) => self.relabel(
                |a: Map<Seq<char>, Seq<char>>| a,
                |l: Map<Seq<char>, u64>| l.insert(listener.event@, listener.id),
            ),
            Edit::UpdateEventListener(listener) => self.relabel(
                |a: Map<Seq<char>, Seq<char>>| a,
                |l: Map<Seq<char>, u64>| l.insert(listener.event@, listener.id),
            ),
            Edit::RemoveEventListener(event) => self.relabel(
                |a: Map<Seq<char>, Seq<char>>| a,
                |l: Map<Seq<char>, u64>| l.remove(event@),
            ),
            Edit::SaveChildrenToTemporaries { temp, start, end } => self.save_children(
                temp as int,
                start as int,
                end as int,
            ),
            Edit::PushTemporary(temp) => if self.temps.contains_key(temp as nat) {
                Some(
                    Machine {
                        loose: self.loose.push(Loose::Moving(self.temps[temp as nat])),
                        ..self
                    },
                )
            } else {
                None
            },
            Edit::InsertBefore => self.insert_before(),
            Edit::RemoveChild(i) => self.remove_child(i as int),
        }
    }

    /// What instructions do, one after the other.
    pub open spec fn run(self, edits: Seq<Edit>) -> Option<Machine>
        decreases edits.len(),
    {
        if edits.len() == 0 {
            Some(self)
        } else {
            match self.run(edits.drop_last()) {
                Some(m) => m.execute(edits.last()),
                None => None,
            }
        }
    }

    /// What the instructions do that steps on a change list ask for.
    #[verifier::opaque]
    pub open spec fn follow(self, steps: Seq<Step>) -> Option<Machine> {
        self.run(instructions(steps))
    }
}

/// An element without attributes and listeners.
pub open spec fn empty_element(tag: Seq<char>, namespace: Option<Seq<char>>) -> Label {
    Label::Element { tag, namespace, attributes: Map::empty(), listeners: Map::empty() }
}

/// The instructions that steps on a change list ask for.
pub open spec fn instructions<'a>(steps: Seq<Step<'a>>) -> Seq<Edit<'a>>
    decreases steps.len(),
{
    if steps.len() == 0 {
        Seq::empty()
    } else {
        match steps.last() {
            Step::Do(e) => instructions(steps.drop_last()).push(e),
            _ => instructions(steps.drop_last()),
        }
    }
}

pub broadcast proof fn lemma_instructions_empty<'a>()
    ensures
        #[trigger] instructions(Seq::<Step<'a>>::empty()) == Seq::<Edit<'a>>::empty(),
{
}

pub broadcast proof fn lemma_instructions_push<'a>(a: Seq<Step<'a>>, x: Step<'a>)
    ensures
        #[trigger] instructions(a.push(x)) == match x {
            Step::Do(e) => instructions(a).push(e),
            _ => instructions(a),
        },
{
    assert(a.push(x).drop_last() =~= a);
}

pub broadcast proof fn lemma_instructions_add<'a>(a: Seq<Step<'a>>, b: Seq<Step<'a>>)
    ensures
        #[trigger] instructions(a + b) == instructions(a) + instructions(b),
    decreases b.len(),
{
    if b.len() == 0 {
        assert(a + b =~= a);
    } else {
        assert((a + b).drop_last() =~= a + b.drop_last());
        lemma_instructions_add(a, b.drop_last());
        assert(instructions(a + b) =~= instructions(a) + instructions(b));
    }
}

/// The stream of a change list grows by the instructions that are asked for.
pub proof fn lemma_stream<'a>(s: ListState<'a>, steps: Seq<Step<'a>>)
    ensures
        s.perform(steps).stream == s.stream + instructions(steps),
    decreases steps.len(),
{
    if steps.len() > 0 {
        lemma_stream(s, steps.drop_last());
        assert(s.perform(steps).stream =~= s.stream + instructions(steps));
    } else {
        assert(s.stream + instructions(steps) =~= s.stream);
    }
}

/// To run one list of instructions after another is to run the two in one.
pub proof fn lemma_run_add(m: Machine, a: Seq<Edit>, b: Seq<Edit>)
    ensures
        m.run(a + b) == match m.run(a) {
            Some(x) => x.run(b),
            None => None,
        },
    decreases b.len(),
{
    if b.len() == 0 {
        assert(a + b =~= a);
    } else {
        assert((a + b).drop_last() =~= a + b.drop_last());
        lemma_run_add(m, a, b.drop_last());
    }
}

pub broadcast proof fn lemma_follow_empty<'a>(m: Machine)
    ensures
        #[trigger] m.follow(Seq::<Step<'a>>::empty()) == Some(m),
{
    reveal(Machine::follow);
}

pub broadcast proof fn lemma_follow_push<'a>(m: Machine, a: Seq<Step<'a>>, x: Step<'a>)
    ensures
        #[trigger] m.follow(a.push(x)) == match m.follow(a) {
            Some(y) => y.take_step(x),
            None => None,
        },
{
    reveal(Machine::follow);
    assert(a.push(x).drop_last() =~= a);
    match x {
        Step::Do(e) => {
            assert(instructions(a.push(x)).drop_last() =~= instructions(a));
        },
        _ => {},
    }
}

pub broadcast proof fn lemma_follow_add<'a>(m: Machine, a: Seq<Step<'a>>, b: Seq<Step<'a>>)
    ensures
        #[trigger] m.follow(a + b) == match m.follow(a) {
            Some(x) => x.follow(b),
            None => None,
        },
{
    reveal(Machine::follow);
    lemma_instructions_add(a, b);
    lemma_run_add(m, instructions(a), instructions(b));
}

impl Machine {
    /// What the instruction does that a step asks for, if it asks for one.
    pub open spec fn take_step(self, step: Step) -> Option<Machine> {
        match step {
            Step::Do(e) => self.execute(e),
            _ => Some(self),
        }
    }
}

// ---------------------------------------------------------------------------
// What physical trees reflect
// ---------------------------------------------------------------------------

/// The value of each attribute; of attributes with the same name, that of the
/// last one.
pub open spec fn attribute_map(attrs: Seq<Attribute>) -> Map<Seq<char>, Seq<char>>
    decreases attrs.len(),
{
    if attrs.len() == 0 {
        Map::empty()
    } else {
        attribute_map(attrs.drop_last()).insert(attrs.last().name@, attrs.last().value@)
    }
}

/// The handler for each event; of listeners to the same event, that of the
/// last one.
pub open spec fn listener_map(ls: Seq<Listener>) -> Map<Seq<char>, u64>
    decreases ls.len(),
{
    if ls.len() == 0 {
        Map::empty()
    } else {
        listener_map(ls.drop_last()).insert(ls.last().event@, ls.last().id)
    }
}

/// The characters of a string that may be missing.
pub open spec fn optional_view(s: Option<&str>) -> Option<Seq<char>> {
    match s {
        Some(x) => Some(x@),
        None => None,
    }
}

/// What a physical node for an element is, apart from its children.
pub open spec fn element_label(e: VElement) -> Label {
    Label::Element {
        tag: e.tag_name@,
        namespace: optional_view(e.namespace),
        attributes: attribute_map(e.attributes@),
        listeners: listener_map(e.listeners@),
    }
}

/// Whether a physical tree is what a virtual tree describes.
pub open spec fn reflects(p: PNode, n: VNode) -> bool
    decreases n,
{
    match n {
        VNode::Text(t) => p.label == Label::Text(t.text@) && p.children.len() == 0,
        VNode::Element(e) => p.label == element_label(e) && reflects_all(p.children, e.children@),
        _ => false,
    }
}

/// Whether physical trees are what virtual trees describe, in order.
pub open spec fn reflects_all(ps: Seq<PNode>, ns: Seq<VNode>) -> bool
    decreases ns,
{
    ps.len() == ns.len() && forall|i: int|
        #![trigger ps[i]]
        #![trigger ns[i]]
        0 <= i < ns.len() ==> reflects(ps[i], ns[i])
}

/// Whether no two nodes have the same identity.
#[verifier::opaque]
pub open spec fn distinct(ps: Seq<PNode>) -> bool {
    forall|i: int, j: int|
        0 <= i < ps.len() && 0 <= j < ps.len() && i != j ==> (#[trigger] ps[i]).id != (
        #[trigger] ps[j]).id
}

/// Whether the nodes of a tree have identities that are taken, siblings
/// different ones.
pub open spec fn identified(p: PNode, fresh: nat) -> bool
    decreases p,
{
    p.id < fresh && identified_all(p.children, fresh)
}

/// Whether the nodes of siblings and of the trees beneath them have identities
/// that are taken, siblings different ones.
pub open spec fn identified_all(ps: Seq<PNode>, fresh: nat) -> bool
    decreases ps,
{
    distinct(ps) && forall|i: int| 0 <= i < ps.len() ==> identified(#[trigger] ps[i], fresh)
}

} // verus!
