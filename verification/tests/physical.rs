//! What the instructions do to a physical tree.
use dodriodiff::changelist::Edit;
use dodriodiff::changelist::EditList;
use dodriodiff::changelist::Move;
use dodriodiff::diff::DiffingMachine;
use dodriodiff::vnode::Attribute;
use dodriodiff::vnode::Listener;
use dodriodiff::vnode::VElement;
use dodriodiff::vnode::VNode;
use dodriodiff::vnode::VText;
use fxhash::FxHashSet;
use std::collections::BTreeMap;
use std::collections::HashMap;

#[derive(Clone, Debug, PartialEq)]
enum Label {
    Text(String),
    Element {
        tag: String,
        namespace: Option<String>,
        attributes: BTreeMap<String, String>,
        listeners: BTreeMap<String, u64>,
    },
}

struct Node {
    label: Label,
    parent: Option<usize>,
    children: Vec<usize>,
}

/// A physical tree and the stack machine that works on it.
struct Dom {
    nodes: Vec<Node>,
    stack: Vec<usize>,
    temps: HashMap<u32, usize>,
    moved: usize,
}

impl Dom {
    fn new() -> Dom {
        Dom { nodes: Vec::new(), stack: Vec::new(), temps: HashMap::new(), moved: 0 }
    }

    fn add(&mut self, label: Label) -> usize {
        self.nodes.push(Node { label, parent: None, children: Vec::new() });
        self.nodes.len() - 1
    }

    /// A physical node that reflects the virtual one, built without the
    /// instructions.
    fn build(&mut self, n: &VNode) -> usize {
        match n {
            VNode::Text(t) => self.add(Label::Text(t.text.to_string())),
            VNode::Element(e) => {
                let id = self.add(label_of(e));
                for c in &e.children {
                    let child = self.build(c);
                    self.insert(id, self.nodes[id].children.len(), child);
                }
                id
            }
            _ => panic!(),
        }
    }

    fn detach(&mut self, n: usize) {
        if let Some(p) = self.nodes[n].parent {
            self.nodes[p].children.retain(|c| *c != n);
            self.nodes[n].parent = None;
        }
    }

    fn insert(&mut self, parent: usize, at: usize, n: usize) {
        self.nodes[parent].children.insert(at, n);
        self.nodes[n].parent = Some(parent);
    }

    fn top(&self) -> usize {
        *self.stack.last().unwrap()
    }

    fn go(&mut self, m: Move) {
        match m {
            Move::Down => {
                let c = self.nodes[self.top()].children[0];
                self.stack.push(c);
            }
            Move::DownToChild(i) => {
                let c = self.nodes[self.top()].children[i];
                self.stack.push(c);
            }
            Move::DownToReverseChild(i) => {
                let kids = &self.nodes[self.top()].children;
                let c = kids[kids.len() - 1 - i];
                self.stack.push(c);
            }
            Move::DownToTempChild(t) => {
                let c = self.temps[&t];
                assert_eq!(self.nodes[c].parent, Some(self.top()));
                self.stack.push(c);
            }
            Move::Up => {
                self.stack.pop().unwrap();
            }
            Move::ToSibling(i) => {
                self.stack.pop().unwrap();
                let c = self.nodes[self.top()].children[i];
                self.stack.push(c);
            }
            Move::ToTempSibling(t) => {
                self.stack.pop().unwrap();
                let c = self.temps[&t];
                assert_eq!(self.nodes[c].parent, Some(self.top()));
                self.stack.push(c);
            }
        }
    }

    fn execute(&mut self, e: &Edit) {
        match *e {
            Edit::Go(m) => self.go(m),
            Edit::SetText(text) => {
                let top = self.top();
                if let Label::Text(t) = &mut self.nodes[top].label {
                    *t = text.to_string();
                } else {
                    for c in self.nodes[top].children.clone() {
                        self.detach(c);
                    }
                    if !text.is_empty() {
                        let c = self.add(Label::Text(text.to_string()));
                        self.insert(top, 0, c);
                    }
                }
            }
            Edit::RemoveSelfAndNextSiblings => {
                let n = self.stack.pop().unwrap();
                let parent = self.nodes[n].parent.unwrap();
                assert_eq!(parent, self.top());
                let at = self.nodes[parent].children.iter().position(|c| *c == n).unwrap();
                for c in self.nodes[parent].children[at..].to_vec() {
                    self.detach(c);
                }
            }
            Edit::ReplaceWith => {
                let new = self.stack.pop().unwrap();
                let old = self.stack.pop().unwrap();
                if let Some(parent) = self.nodes[old].parent {
                    let at = self.nodes[parent].children.iter().position(|c| *c == old).unwrap();
                    self.detach(old);
                    self.insert(parent, at, new);
                }
                self.stack.push(new);
            }
            Edit::SetAttribute { name, value, is_namespaced } => {
                let top = self.top();
                if let Label::Element { attributes, namespace, .. } = &mut self.nodes[top].label {
                    assert_eq!(is_namespaced, namespace.is_some());
                    attributes.insert(name.to_string(), value.to_string());
                } else {
                    panic!();
                }
            }
            Edit::RemoveAttribute(name) => {
                let top = self.top();
                if let Label::Element { attributes, .. } = &mut self.nodes[top].label {
                    assert!(attributes.remove(name).is_some());
                } else {
                    panic!();
                }
            }
            Edit::AppendChild => {
                let c = self.stack.pop().unwrap();
                let parent = self.top();
                if self.nodes[c].parent.is_some() {
                    self.moved += 1;
                }
                self.detach(c);
                self.insert(parent, self.nodes[parent].children.len(), c);
            }
            Edit::CreateTextNode(text) => {
                let n = self.add(Label::Text(text.to_string()));
                self.stack.push(n);
            }
            Edit::CreateElement(tag) => {
                let n = self.add(empty(tag, None));
                self.stack.push(n);
            }
            Edit::CreateElementNs { tag_name, namespace } => {
                let n = self.add(empty(tag_name, Some(namespace)));
                self.stack.push(n);
            }
            Edit::NewEventListener(l) => {
                assert!(self.listeners().insert(l.event.to_string(), l.id).is_none());
            }
            Edit::UpdateEventListener(l) => {
                assert!(self.listeners().insert(l.event.to_string(), l.id).is_some());
            }
            Edit::RemoveEventListener(event) => {
                assert!(self.listeners().remove(event).is_some());
            }
            Edit::SaveChildrenToTemporaries { temp, start, end } => {
                for i in start..end {
                    let c = self.nodes[self.top()].children[i];
                    self.temps.insert(temp + (i - start) as u32, c);
                }
            }
            Edit::PushTemporary(t) => {
                let n = self.temps[&t];
                self.stack.push(n);
            }
            Edit::InsertBefore => {
                let n = self.stack.pop().unwrap();
                let successor = self.stack.pop().unwrap();
                let parent = self.top();
                if self.nodes[n].parent.is_some() {
                    self.moved += 1;
                }
                self.detach(n);
                let at = self.nodes[parent].children.iter().position(|c| *c == successor).unwrap();
                self.insert(parent, at, n);
                self.stack.push(n);
            }
            Edit::RemoveChild(i) => {
                let c = self.nodes[self.top()].children[i];
                self.detach(c);
            }
        }
    }

    fn listeners(&mut self) -> &mut BTreeMap<String, u64> {
        let top = self.top();
        if let Label::Element { listeners, .. } = &mut self.nodes[top].label {
            listeners
        } else {
            panic!()
        }
    }

    fn reflects(&self, id: usize, n: &VNode) -> bool {
        let node = &self.nodes[id];
        match n {
            VNode::Text(t) => {
                node.label == Label::Text(t.text.to_string()) && node.children.is_empty()
            }
            VNode::Element(e) => {
                node.label == label_of(e)
                    && node.children.len() == e.children.len()
                    && node.children.iter().zip(&e.children).all(|(c, v)| self.reflects(*c, v))
            }
            _ => false,
        }
    }
}

fn empty(tag: &str, namespace: Option<&str>) -> Label {
    Label::Element {
        tag: tag.to_string(),
        namespace: namespace.map(|n| n.to_string()),
        attributes: BTreeMap::new(),
        listeners: BTreeMap::new(),
    }
}

fn label_of(e: &VElement) -> Label {
    Label::Element {
        tag: e.tag_name.to_string(),
        namespace: e.namespace.map(|n| n.to_string()),
        attributes: e
            .attributes
            .iter()
            .map(|a| (a.name.to_string(), a.value.to_string()))
            .collect(),
        listeners: e.listeners.iter().map(|l| (l.event.to_string(), l.id)).collect(),
    }
}

fn machine<'a>() -> DiffingMachine<'a> {
    DiffingMachine {
        change_list: EditList::new(),
        immediate_queue: Vec::new(),
        diffed: FxHashSet::default(),
        need_to_diff: FxHashSet::default(),
    }
}

fn text(text: &str) -> VNode<'_> {
    VNode::Text(VText { text })
}

fn element<'a>(tag_name: &'a str, children: Vec<VNode<'a>>) -> VElement<'a> {
    VElement {
        key: None,
        tag_name,
        listeners: Vec::new(),
        attributes: Vec::new(),
        children,
        namespace: None,
    }
}

fn elem<'a>(tag_name: &'a str, children: Vec<VNode<'a>>) -> VNode<'a> {
    VNode::Element(element(tag_name, children))
}

fn list<'a>(keys: &[u64]) -> VNode<'a> {
    elem(
        "ul",
        keys.iter()
            .map(|k| VNode::Element(VElement { key: Some(*k), ..element("li", Vec::new()) }))
            .collect(),
    )
}

/// Diff under a root element, run the edits and hand back the tree and the
/// physical node that is then in the place of the old one.
fn run<'a>(old: &VNode<'a>, new: &VNode<'a>) -> (Dom, usize, usize) {
    let mut dom = Dom::new();
    let root = dom.add(empty("root", None));
    let before = dom.build(old);
    dom.insert(root, 0, before);
    dom.stack = vec![root, before];
    let mut m = machine();
    m.diff_node(old, new);
    m.change_list.commit_traversal();
    for e in m.change_list.edits() {
        dom.execute(e);
    }
    let after = dom.nodes[root].children[0];
    assert_eq!(dom.nodes[root].children.len(), 1);
    assert_eq!(dom.stack, vec![root, after]);
    (dom, before, after)
}

fn check<'a>(old: &VNode<'a>, new: &VNode<'a>) -> (Dom, usize, usize) {
    let (dom, before, after) = run(old, new);
    assert!(dom.reflects(after, new), "{:?} to {:?}", old, new);
    (dom, before, after)
}

fn permutations(keys: &[u64]) -> Vec<Vec<u64>> {
    if keys.is_empty() {
        return vec![vec![]];
    }
    let mut r = Vec::new();
    for i in 0..keys.len() {
        let mut rest = keys.to_vec();
        let k = rest.remove(i);
        for mut p in permutations(&rest) {
            p.insert(0, k);
            r.push(p);
        }
    }
    r
}

fn subsets(keys: &[u64]) -> Vec<Vec<u64>> {
    (0..1usize << keys.len())
        .map(|bits| {
            keys.iter()
                .enumerate()
                .filter(|(i, _)| bits >> i & 1 == 1)
                .map(|(_, k)| *k)
                .collect()
        })
        .collect()
}

/// How many of the old nodes can stay in place at most.
fn most_that_stay(olds: &[u64], news: &[u64]) -> usize {
    let mut best = 0;
    for kept in subsets(news) {
        let at: Vec<usize> = kept
            .iter()
            .filter_map(|k| olds.iter().position(|o| o == k))
            .collect();
        if at.len() == kept.len() && at.windows(2).all(|w| w[0] < w[1]) && at.len() > best {
            best = at.len();
        }
    }
    best
}

#[test]
fn old_turns_into_new() {
    let old = elem("div", vec![text("a"), elem("p", vec![text("b")]), elem("i", vec![])]);
    let new = elem("div", vec![elem("p", vec![text("c"), text("d")]), text("e")]);
    let (_, before, after) = check(&old, &new);
    assert_eq!(before, after);
    check(&new, &old);
    check(&old, &old);
    let (_, before, after) = check(&old, &text("x"));
    assert_ne!(before, after);
    check(&text("x"), &old);
    check(&text("x"), &text("y"));
}

#[test]
fn two_diffs_on_one_list_turn_old_into_new() {
    let a = list(&[1, 2, 3]);
    let b = list(&[3, 4, 1]);
    let c = list(&[4, 2]);
    let mut dom = Dom::new();
    let id = dom.build(&a);
    dom.stack = vec![id];
    let mut m = machine();
    m.diff_node(&a, &b);
    m.diff_node(&b, &c);
    m.change_list.commit_traversal();
    for e in m.change_list.edits() {
        dom.execute(e);
    }
    assert_eq!(dom.stack, vec![id]);
    assert!(dom.reflects(id, &c));
}

#[test]
fn listeners_and_attributes_turn_into_the_new_ones() {
    let old = VNode::Element(VElement {
        listeners: vec![Listener { event: "a", id: 1 }, Listener { event: "b", id: 2 }],
        attributes: vec![
            Attribute { name: "x", value: "1", volatile: false },
            Attribute { name: "y", value: "2", volatile: false },
        ],
        ..element("p", vec![])
    });
    let new = VNode::Element(VElement {
        listeners: vec![Listener { event: "b", id: 3 }, Listener { event: "c", id: 4 }],
        attributes: vec![
            Attribute { name: "y", value: "3", volatile: true },
            Attribute { name: "z", value: "4", volatile: false },
        ],
        ..element("p", vec![])
    });
    let (_, before, after) = check(&old, &new);
    assert_eq!(before, after);
}

#[test]
fn two_values_for_one_attribute_may_not_settle() {
    let a = |value| Attribute { name: "a", value, volatile: false };
    let old = VNode::Element(VElement { attributes: vec![a("1"), a("2")], ..element("p", vec![]) });
    let new = VNode::Element(VElement { attributes: vec![a("1")], ..element("p", vec![]) });
    let (dom, _, after) = run(&old, &new);
    assert!(!dom.reflects(after, &new));
    assert!(dom.reflects(after, &VNode::Element(VElement {
        attributes: vec![a("2")],
        ..element("p", vec![])
    })));
    check(&old, &old);
}

#[test]
fn a_sole_empty_text_leaves_no_child() {
    let new = elem("p", vec![text("")]);
    let (dom, _, after) = run(&elem("p", vec![elem("i", vec![])]), &new);
    assert!(!dom.reflects(after, &new));
    assert!(dom.reflects(after, &elem("p", vec![])));
    // One that is there already stays.
    check(&new, &new);
}

#[test]
fn the_stack_is_left_as_it_was_where_the_new_tree_cannot_be_had() {
    let a = |value| Attribute { name: "a", value, volatile: false };
    let item = |key, attributes, children| {
        VNode::Element(VElement { key: Some(key), attributes, ..element("li", children) })
    };
    let old = elem(
        "ul",
        vec![
            item(1, vec![a("1"), a("2")], vec![text("x")]),
            item(2, vec![], vec![]),
            item(3, vec![], vec![elem("i", vec![])]),
        ],
    );
    let new = elem(
        "ul",
        vec![
            item(3, vec![], vec![text("")]),
            item(4, vec![], vec![text("")]),
            item(1, vec![a("1")], vec![text("")]),
        ],
    );
    let (dom, before, after) = run(&old, &new);
    assert_eq!(before, after);
    assert!(!dom.reflects(after, &new));
    assert_eq!(dom.nodes[after].children.len(), 3);
    run(&new, &old);
}

/// How many nodes the edits put into place that they have not made.
fn moves_in(edits: &[Edit]) -> usize {
    let put = edits
        .iter()
        .filter(|e| matches!(e, Edit::AppendChild | Edit::InsertBefore | Edit::ReplaceWith))
        .count();
    let made = edits
        .iter()
        .filter(|e| {
            matches!(
                e,
                Edit::CreateTextNode(_) | Edit::CreateElement(_) | Edit::CreateElementNs { .. }
            )
        })
        .count();
    put - made
}

fn emitted_moves<'a>(old: &VNode<'a>, new: &VNode<'a>) -> usize {
    let mut m = machine();
    m.diff_node(old, new);
    m.change_list.commit_traversal();
    moves_in(m.change_list.edits())
}

#[test]
fn as_many_nodes_are_moved_as_the_edits_ask_for() {
    let olds = [1, 2, 3, 4];
    for chosen in subsets(&[1, 2, 3, 4, 8]) {
        for news in permutations(&chosen) {
            let (dom, _, _) = check(&list(&olds), &list(&news));
            assert_eq!(emitted_moves(&list(&olds), &list(&news)), dom.moved);
        }
    }
    assert_eq!(emitted_moves(&list(&[1, 2, 3, 4, 5]), &list(&[4, 5, 1, 9, 2, 3])), 2);
}

#[test]
fn moves_beneath_moved_nodes_add_up() {
    let nested = |key: u64, keys: &[u64]| {
        VNode::Element(VElement { key: Some(key), ..element("li", vec![list(keys)]) })
    };
    let old = elem("ul", vec![nested(1, &[5, 6, 7]), nested(2, &[8, 9])]);
    let new = elem("ul", vec![nested(2, &[9, 8]), nested(1, &[7, 6, 5])]);
    let (dom, _, _) = check(&old, &new);
    assert_eq!(dom.moved, 1 + 1 + 2);
    assert_eq!(emitted_moves(&old, &new), 4);
    // A node that is diffed with itself moves nothing.
    assert_eq!(emitted_moves(&old, &old), 0);
}

#[test]
fn every_keyed_reordering_is_right_and_moves_as_few_nodes_as_possible() {
    let olds = [1, 2, 3, 4, 5];
    for news in permutations(&olds) {
        let (dom, before, after) = check(&list(&olds), &list(&news));
        assert_eq!(before, after);
        // The physical nodes are those that had the keys before. They were
        // built in the order of the old keys, right after the list itself.
        let kids = &dom.nodes[after].children;
        let expected: Vec<usize> = news.iter().map(|k| after + *k as usize).collect();
        assert_eq!(kids, &expected);
        assert_eq!(dom.moved, news.len() - most_that_stay(&olds, &news));
    }
}

#[test]
fn every_keyed_change_is_right_and_moves_as_few_nodes_as_possible() {
    let olds = [1, 2, 3, 4];
    for chosen in subsets(&[1, 2, 3, 4, 8, 9]) {
        if chosen.len() > 5 {
            continue;
        }
        for news in permutations(&chosen) {
            let (dom, _, after) = check(&list(&olds), &list(&news));
            let shared = news.iter().filter(|k| olds.contains(k)).count();
            assert_eq!(dom.moved, shared - most_that_stay(&olds, &news));
            for (k, c) in news.iter().zip(&dom.nodes[after].children) {
                if olds.contains(k) {
                    assert_eq!(*c, after + *k as usize);
                } else {
                    assert!(*c > after + olds.len());
                }
            }
        }
    }
}

/// A small generator of numbers, so that the trees are the same on every run.
struct Numbers(u64);

impl Numbers {
    fn next(&mut self, below: u64) -> u64 {
        self.0 = self.0.wrapping_mul(6364136223846793005).wrapping_add(1442695040888963407);
        (self.0 >> 33) % below
    }

    fn node<'a>(&mut self, depth: u64, key: Option<u64>) -> VNode<'a> {
        let names = ["a", "b", "c"];
        let values = ["", "1", "2"];
        if key.is_none() && self.next(3) == 0 {
            return text(["x", "y", "z"][self.next(3) as usize]);
        }
        let mut e = element(names[self.next(2) as usize], vec![]);
        e.key = key;
        if self.next(4) == 0 {
            e.namespace = Some("ns");
        }
        for name in names {
            if self.next(2) == 0 {
                let value = values[self.next(3) as usize];
                e.attributes.push(Attribute { name, value, volatile: self.next(3) == 0 });
            }
            if self.next(2) == 0 {
                e.listeners.push(Listener { event: name, id: self.next(4) });
            }
        }
        if depth > 0 {
            e.children = self.nodes(depth - 1);
        }
        VNode::Element(e)
    }

    fn nodes<'a>(&mut self, depth: u64) -> Vec<VNode<'a>> {
        if self.next(2) == 0 {
            let n = self.next(5);
            (0..n).map(|_| self.node(depth, None)).collect()
        } else {
            let mut keys: Vec<u64> = (1..9).collect();
            let n = self.next(6) as usize;
            let mut r = Vec::new();
            for _ in 0..n {
                let i = self.next(keys.len() as u64) as usize;
                let k = keys.remove(i);
                r.push(self.node(depth, Some(k)));
            }
            r
        }
    }
}

#[test]
fn many_trees_turn_into_others() {
    let mut numbers = Numbers(1);
    for _ in 0..3000 {
        let old = numbers.node(3, None);
        let new = numbers.node(3, None);
        check(&old, &new);
    }
}

#[test]
fn created_nodes_go_on_top_of_any_stack() {
    let node = elem("p", vec![text("a"), elem("b", vec![text("c")])]);
    for depth in 0..3 {
        let mut dom = Dom::new();
        for _ in 0..depth {
            let id = dom.add(empty("div", None));
            dom.stack.push(id);
        }
        let before = dom.stack.clone();
        let mut m = machine();
        m.create(&node);
        for e in m.change_list.edits() {
            dom.execute(e);
        }
        assert_eq!(dom.stack.len(), before.len() + 1);
        assert_eq!(dom.stack[..before.len()], before[..]);
        assert!(dom.reflects(dom.top(), &node));
    }
}

#[test]
fn children_are_appended_removed_and_cut_off() {
    let mut dom = Dom::new();
    let parent = dom.build(&elem("div", vec![text("a"), text("b"), text("c")]));
    dom.stack = vec![parent];
    let mut m = machine();
    m.create_and_append_children(&[text("d"), text("e")]);
    m.change_list.go_down_to_child(2);
    m.change_list.commit_traversal();
    m.remove_self_and_next_siblings(&[]);
    for e in m.change_list.edits() {
        dom.execute(e);
    }
    assert_eq!(dom.stack, vec![parent]);
    assert!(dom.reflects(parent, &elem("div", vec![text("a"), text("b")])));
    let mut m = machine();
    m.remove_all_children(&[]);
    for e in m.change_list.edits() {
        dom.execute(e);
    }
    assert_eq!(dom.stack, vec![parent]);
    assert!(dom.reflects(parent, &elem("div", vec![])));
}
