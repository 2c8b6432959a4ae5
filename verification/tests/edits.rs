//! Which instructions are emitted.
use dodriodiff::changelist::Edit;
use dodriodiff::changelist::EditList;
use dodriodiff::changelist::Move;
use dodriodiff::diff::DiffingMachine;
use dodriodiff::diff::KeyedPrefixResult;
use dodriodiff::lis::longest_increasing_subsequence_of;
use dodriodiff::vnode::Attribute;
use dodriodiff::vnode::Listener;
use dodriodiff::vnode::VElement;
use dodriodiff::vnode::VNode;
use dodriodiff::vnode::VText;
use fxhash::FxHashSet;

fn machine<'a>() -> DiffingMachine<'a> {
    DiffingMachine {
        change_list: EditList::new(),
        immediate_queue: Vec::new(),
        diffed: FxHashSet::default(),
        need_to_diff: FxHashSet::default(),
    }
}

fn text(text: &str) -> VNode<'_> {
    VNode::Text(VText { text })
}

fn element<'a>(tag_name: &'a str, children: Vec<VNode<'a>>) -> VElement<'a> {
    VElement {
        key: None,
        tag_name,
        listeners: Vec::new(),
        attributes: Vec::new(),
        children,
        namespace: None,
    }
}

fn elem<'a>(tag_name: &'a str, children: Vec<VNode<'a>>) -> VNode<'a> {
    VNode::Element(element(tag_name, children))
}

fn keyed<'a>(key: u64, tag_name: &'a str, children: Vec<VNode<'a>>) -> VNode<'a> {
    VNode::Element(VElement { key: Some(key), ..element(tag_name, children) })
}

fn items<'a>(keys: &[u64]) -> Vec<VNode<'a>> {
    keys.iter().map(|k| keyed(*k, "li", Vec::new())).collect()
}

fn attr<'a>(name: &'a str, value: &'a str) -> Attribute<'a> {
    Attribute { name, value, volatile: false }
}

fn set<'a>(name: &'a str, value: &'a str) -> Edit<'a> {
    Edit::SetAttribute { name, value, is_namespaced: false }
}

fn go<'a>(m: Move) -> Edit<'a> {
    Edit::Go(m)
}

fn save<'a>(temp: u32, start: usize, end: usize) -> Edit<'a> {
    Edit::SaveChildrenToTemporaries { temp, start, end }
}

/// What is emitted, the moves that are kept back last.
fn emitted<'a>(m: &mut DiffingMachine<'a>) -> Vec<Edit<'a>> {
    m.change_list.commit_traversal();
    m.change_list.edits().clone()
}

fn node_edits<'a>(old: &VNode<'a>, new: &VNode<'a>) -> Vec<Edit<'a>> {
    let mut m = machine();
    m.diff_node(old, new);
    emitted(&mut m)
}

fn children_edits<'a>(old: &[VNode<'a>], new: &[VNode<'a>]) -> Vec<Edit<'a>> {
    let mut m = machine();
    m.diff_children(old, new);
    assert_eq!(m.change_list.next_temporary(), 0);
    emitted(&mut m)
}

#[test]
fn equal_texts_need_no_edit() {
    assert_eq!(node_edits(&text("a"), &text("a")), vec![]);
    assert_eq!(node_edits(&text(""), &text("")), vec![]);
}

#[test]
fn different_texts_are_set() {
    assert_eq!(node_edits(&text("a"), &text("b")), vec![Edit::SetText("b")]);
    assert_eq!(node_edits(&text("a"), &text("")), vec![Edit::SetText("")]);
}

#[test]
fn text_and_element_are_replaced() {
    let p = elem("p", vec![]);
    assert_eq!(
        node_edits(&text("a"), &p),
        vec![Edit::CreateElement("p"), Edit::ReplaceWith]
    );
    assert_eq!(
        node_edits(&p, &text("a")),
        vec![Edit::CreateTextNode("a"), Edit::ReplaceWith]
    );
}

#[test]
fn elements_of_another_type_are_replaced() {
    let p = elem("p", vec![]);
    let div = elem("div", vec![]);
    let svg_p = VNode::Element(VElement { namespace: Some("svg"), ..element("p", vec![]) });
    let math_p = VNode::Element(VElement { namespace: Some("math"), ..element("p", vec![]) });
    assert_eq!(
        node_edits(&p, &div),
        vec![Edit::CreateElement("div"), Edit::ReplaceWith]
    );
    assert_eq!(
        node_edits(&p, &svg_p),
        vec![
            Edit::CreateElementNs { tag_name: "p", namespace: "svg" },
            Edit::ReplaceWith
        ]
    );
    assert_eq!(
        node_edits(&svg_p, &p),
        vec![Edit::CreateElement("p"), Edit::ReplaceWith]
    );
    assert_eq!(
        node_edits(&svg_p, &math_p),
        vec![
            Edit::CreateElementNs { tag_name: "p", namespace: "math" },
            Edit::ReplaceWith
        ]
    );
    assert_eq!(node_edits(&svg_p, &svg_p), vec![]);
}

#[test]
fn elements_of_the_same_type_are_diffed() {
    let old = VNode::Element(VElement {
        listeners: vec![Listener { event: "click", id: 1 }],
        attributes: vec![attr("id", "x")],
        ..element("p", vec![text("a")])
    });
    let new = VNode::Element(VElement {
        listeners: vec![Listener { event: "click", id: 2 }],
        attributes: vec![attr("id", "y")],
        ..element("p", vec![text("b")])
    });
    assert_eq!(
        node_edits(&old, &new),
        vec![
            Edit::UpdateEventListener(Listener { event: "click", id: 2 }),
            set("id", "y"),
            Edit::SetText("b"),
        ]
    );
}

#[test]
fn listeners_are_updated_added_and_removed() {
    let olds = [
        Listener { event: "click", id: 1 },
        Listener { event: "input", id: 2 },
    ];
    let news = [
        Listener { event: "keydown", id: 3 },
        Listener { event: "click", id: 4 },
    ];
    let mut m = machine();
    m.diff_listeners(&olds, &news);
    assert_eq!(
        emitted(&mut m),
        vec![
            Edit::NewEventListener(news[0]),
            Edit::UpdateEventListener(news[1]),
            Edit::RemoveEventListener("input"),
        ]
    );
}

#[test]
fn listeners_commit_moves_only_where_there_are_any() {
    let l = [Listener { event: "click", id: 1 }];
    let mut m = machine();
    m.change_list.go_down();
    m.diff_listeners(&[], &[]);
    assert!(!m.change_list.traversal_is_committed());
    assert_eq!(m.change_list.pending_moves(), &vec![Move::Down]);
    m.diff_listeners(&l, &[]);
    assert!(m.change_list.traversal_is_committed());
    assert_eq!(
        m.change_list.edits(),
        &vec![go(Move::Down), Edit::RemoveEventListener("click")]
    );
}

#[test]
fn attributes_are_set_and_removed() {
    let olds = [attr("a", "1"), attr("b", "2"), attr("c", "3")];
    let news = [attr("b", "2"), attr("c", "4"), attr("d", "5")];
    let mut m = machine();
    m.change_list.go_up();
    m.diff_attr(&olds, &news, false);
    assert_eq!(
        emitted(&mut m),
        vec![
            go(Move::Up),
            set("c", "4"),
            set("d", "5"),
            Edit::RemoveAttribute("a"),
        ]
    );
}

#[test]
fn equal_attributes_leave_moves_pending() {
    let attrs = [attr("a", "1")];
    let mut m = machine();
    m.change_list.go_down_to_child(7);
    m.diff_attr(&attrs, &attrs, true);
    assert_eq!(m.change_list.pending_moves(), &vec![Move::DownToChild(7)]);
    assert_eq!(m.change_list.edits(), &vec![]);
}

#[test]
fn volatile_attributes_are_set_again() {
    let attrs = [Attribute { name: "value", value: "1", volatile: true }];
    let mut m = machine();
    m.diff_attr(&attrs, &attrs, true);
    assert_eq!(
        emitted(&mut m),
        vec![Edit::SetAttribute { name: "value", value: "1", is_namespaced: true }]
    );
}

#[test]
fn an_attribute_is_held_against_the_first_of_its_name() {
    let olds = [attr("a", "1"), attr("a", "2")];
    let mut m = machine();
    m.diff_attr(&olds, &[attr("a", "1")], false);
    assert_eq!(emitted(&mut m), vec![]);
    m.diff_attr(&olds, &[attr("a", "2")], false);
    assert_eq!(emitted(&mut m), vec![set("a", "2")]);
}

#[test]
fn attributes_of_elements_in_a_namespace_are_namespaced() {
    let old = VNode::Element(VElement { namespace: Some("svg"), ..element("g", vec![]) });
    let new = VNode::Element(VElement {
        namespace: Some("svg"),
        attributes: vec![attr("x", "1")],
        ..element("g", vec![])
    });
    assert_eq!(
        node_edits(&old, &new),
        vec![Edit::SetAttribute { name: "x", value: "1", is_namespaced: true }]
    );
}

#[test]
fn no_children_need_no_edit() {
    assert_eq!(children_edits(&[], &[]), vec![]);
}

#[test]
fn all_children_are_removed() {
    assert_eq!(
        children_edits(&[text("a"), text("b")], &[]),
        vec![Edit::SetText("")]
    );
    assert_eq!(children_edits(&items(&[1, 2]), &[]), vec![Edit::SetText("")]);
}

#[test]
fn a_sole_text_child_is_set_at_once() {
    assert_eq!(children_edits(&[], &[text("a")]), vec![Edit::SetText("a")]);
    assert_eq!(
        children_edits(&[text("b"), elem("p", vec![])], &[text("a")]),
        vec![Edit::SetText("a")]
    );
    assert_eq!(
        children_edits(&items(&[1, 2]), &[text("a")]),
        vec![Edit::SetText("a")]
    );
}

#[test]
fn an_unchanged_sole_text_child_is_not_set() {
    assert_eq!(
        children_edits(&[text("a")], &[text("a")]),
        vec![go(Move::Down), go(Move::ToSibling(0)), go(Move::Up)]
    );
    assert_eq!(
        children_edits(&[text("a"), text("b")], &[text("a")]),
        vec![
            go(Move::Down),
            go(Move::ToSibling(0)),
            go(Move::ToSibling(1)),
            Edit::RemoveSelfAndNextSiblings,
        ]
    );
}

#[test]
fn first_children_are_created_and_appended() {
    assert_eq!(
        children_edits(&[], &[elem("p", vec![]), text("a")]),
        vec![
            Edit::CreateElement("p"),
            Edit::AppendChild,
            Edit::CreateTextNode("a"),
            Edit::AppendChild,
        ]
    );
}

#[test]
fn non_keyed_children_are_diffed_in_order() {
    assert_eq!(
        children_edits(&[text("a"), text("b")], &[text("a"), text("c")]),
        vec![
            go(Move::Down),
            go(Move::ToSibling(0)),
            go(Move::ToSibling(1)),
            Edit::SetText("c"),
            go(Move::Up),
        ]
    );
}

#[test]
fn more_non_keyed_children_are_appended() {
    assert_eq!(
        children_edits(&[text("a")], &[text("b"), text("c")]),
        vec![
            go(Move::Down),
            go(Move::ToSibling(0)),
            Edit::SetText("b"),
            go(Move::Up),
            Edit::CreateTextNode("c"),
            Edit::AppendChild,
        ]
    );
}

#[test]
fn fewer_non_keyed_children_are_cut_off() {
    assert_eq!(
        children_edits(
            &[text("a"), text("b"), text("c"), text("d")],
            &[text("a"), text("e")]
        ),
        vec![
            go(Move::Down),
            go(Move::ToSibling(0)),
            go(Move::ToSibling(1)),
            Edit::SetText("e"),
            go(Move::ToSibling(2)),
            Edit::RemoveSelfAndNextSiblings,
        ]
    );
}

#[test]
fn children_with_keys_on_one_side_only_are_diffed_in_order() {
    assert_eq!(
        children_edits(&items(&[1]), &[elem("li", vec![]), text("a")]),
        vec![
            go(Move::Down),
            go(Move::ToSibling(0)),
            go(Move::Up),
            Edit::CreateTextNode("a"),
            Edit::AppendChild,
        ]
    );
}

#[test]
fn keyed_children_that_only_grow_are_appended_to() {
    assert_eq!(
        children_edits(&items(&[1, 2]), &items(&[1, 2, 3])),
        vec![
            go(Move::Down),
            go(Move::ToSibling(0)),
            go(Move::ToSibling(1)),
            go(Move::Up),
            Edit::CreateElement("li"),
            Edit::AppendChild,
        ]
    );
}

#[test]
fn keyed_children_that_only_shrink_are_cut_off() {
    assert_eq!(
        children_edits(&items(&[1, 2, 3]), &items(&[1])),
        vec![
            go(Move::Down),
            go(Move::ToSibling(0)),
            go(Move::ToSibling(1)),
            Edit::RemoveSelfAndNextSiblings,
        ]
    );
}

#[test]
fn keyed_children_without_shared_keys_are_created_afresh() {
    assert_eq!(
        children_edits(&items(&[1, 2]), &items(&[3])),
        vec![
            go(Move::Down),
            go(Move::Up),
            Edit::SetText(""),
            Edit::CreateElement("li"),
            Edit::AppendChild,
        ]
    );
    assert_eq!(
        children_edits(&items(&[1, 2, 3]), &items(&[1, 4])),
        vec![
            go(Move::Down),
            go(Move::ToSibling(0)),
            go(Move::Up),
            go(Move::DownToChild(1)),
            Edit::RemoveSelfAndNextSiblings,
            Edit::CreateElement("li"),
            Edit::AppendChild,
        ]
    );
}

#[test]
fn keyed_children_are_swapped_by_one_move() {
    assert_eq!(
        children_edits(&items(&[1, 2]), &items(&[2, 1])),
        vec![
            go(Move::Down),
            go(Move::Up),
            save(0, 0, 2),
            go(Move::DownToTempChild(0)),
            Edit::PushTemporary(1),
            Edit::InsertBefore,
            go(Move::Up),
        ]
    );
}

#[test]
fn a_keyed_child_goes_from_the_beginning_to_the_end() {
    assert_eq!(
        children_edits(&items(&[1, 2, 3]), &items(&[2, 3, 1])),
        vec![
            go(Move::Down),
            go(Move::Up),
            save(0, 0, 3),
            go(Move::DownToTempChild(0)),
            Edit::AppendChild,
            go(Move::DownToTempChild(0)),
            go(Move::ToTempSibling(2)),
            go(Move::ToTempSibling(1)),
            go(Move::Up),
        ]
    );
}

#[test]
fn a_keyed_child_goes_from_the_end_to_the_beginning() {
    assert_eq!(
        children_edits(&items(&[1, 2, 3]), &items(&[3, 1, 2])),
        vec![
            go(Move::Down),
            go(Move::Up),
            save(0, 0, 3),
            go(Move::DownToTempChild(1)),
            go(Move::ToTempSibling(0)),
            Edit::PushTemporary(2),
            Edit::InsertBefore,
            go(Move::Up),
        ]
    );
}

#[test]
fn a_fresh_keyed_child_is_inserted_before_the_suffix() {
    assert_eq!(
        children_edits(&items(&[1, 3]), &items(&[1, 2, 3])),
        vec![
            go(Move::Down),
            go(Move::ToSibling(0)),
            go(Move::Up),
            go(Move::DownToChild(1)),
            Edit::CreateElement("li"),
            Edit::InsertBefore,
            go(Move::Up),
            go(Move::Down),
            go(Move::ToSibling(2)),
            go(Move::Up),
        ]
    );
}

#[test]
fn an_unused_keyed_child_is_removed_from_the_middle() {
    assert_eq!(
        children_edits(&items(&[1, 2, 3]), &items(&[1, 3])),
        vec![
            go(Move::Down),
            go(Move::ToSibling(0)),
            go(Move::Up),
            Edit::RemoveChild(1),
            go(Move::Down),
            go(Move::ToSibling(1)),
            go(Move::Up),
        ]
    );
}

#[test]
fn unused_keyed_children_are_removed_from_the_end_first() {
    assert_eq!(
        children_edits(&items(&[1, 2, 3, 4]), &items(&[5, 2, 6])),
        vec![
            go(Move::Down),
            go(Move::Up),
            save(0, 1, 2),
            Edit::RemoveChild(3),
            Edit::RemoveChild(2),
            Edit::RemoveChild(0),
            Edit::CreateElement("li"),
            Edit::AppendChild,
            go(Move::DownToReverseChild(0)),
            go(Move::ToTempSibling(0)),
            Edit::CreateElement("li"),
            Edit::InsertBefore,
            go(Move::Up),
        ]
    );
}

#[test]
fn the_suffix_moves_up_by_the_removed_children() {
    assert_eq!(
        children_edits(&items(&[1, 2, 3, 9]), &items(&[4, 2, 9])),
        vec![
            go(Move::Down),
            go(Move::Up),
            save(0, 1, 2),
            Edit::RemoveChild(2),
            Edit::RemoveChild(0),
            go(Move::DownToChild(1)),
            go(Move::ToTempSibling(0)),
            Edit::CreateElement("li"),
            Edit::InsertBefore,
            go(Move::Up),
            go(Move::Down),
            go(Move::ToSibling(2)),
            go(Move::Up),
        ]
    );
}

#[test]
fn a_last_child_that_is_replaced_and_moved_is_found_at_the_end() {
    let olds = vec![keyed(1, "a", vec![]), keyed(2, "li", vec![]), keyed(3, "li", vec![])];
    let news = vec![keyed(2, "li", vec![]), keyed(3, "li", vec![]), keyed(1, "b", vec![])];
    assert_eq!(
        children_edits(&olds, &news),
        vec![
            go(Move::Down),
            go(Move::Up),
            save(0, 0, 3),
            go(Move::DownToTempChild(0)),
            Edit::CreateElement("b"),
            Edit::ReplaceWith,
            Edit::AppendChild,
            go(Move::DownToReverseChild(0)),
            go(Move::ToTempSibling(2)),
            go(Move::ToTempSibling(1)),
            go(Move::Up),
        ]
    );
}

#[test]
fn nested_keyed_children_use_later_temporaries() {
    let olds = vec![keyed(1, "ul", items(&[5, 6])), keyed(2, "ul", vec![])];
    let news = vec![keyed(2, "ul", vec![]), keyed(1, "ul", items(&[6, 5]))];
    assert_eq!(
        children_edits(&olds, &news),
        vec![
            go(Move::Down),
            go(Move::Up),
            save(0, 0, 2),
            go(Move::DownToTempChild(0)),
            go(Move::Down),
            go(Move::Up),
            save(2, 0, 2),
            go(Move::DownToTempChild(2)),
            Edit::PushTemporary(3),
            Edit::InsertBefore,
            go(Move::Up),
            Edit::PushTemporary(1),
            Edit::InsertBefore,
            go(Move::Up),
        ]
    );
}

#[test]
fn temporaries_start_at_the_next_one() {
    let olds = items(&[1, 2]);
    let news = items(&[2, 1]);
    let mut m = machine();
    m.change_list.set_next_temporary(40);
    m.diff_keyed_children(&olds, &news);
    assert_eq!(m.change_list.next_temporary(), 42);
    assert_eq!(emitted(&mut m)[2], save(40, 0, 2));
    m.change_list.set_next_temporary(40);
    m.diff_children(&olds, &news);
    assert_eq!(m.change_list.next_temporary(), 40);
}

#[test]
fn no_temporary_is_taken_where_nothing_is_saved() {
    let mut m = machine();
    m.change_list.set_next_temporary(u32::MAX);
    let inner = || elem("ul", items(&[1, 2]));
    // replaced
    m.diff_node(&inner(), &elem("ol", items(&[2, 1])));
    m.diff_node(&inner(), &text("a"));
    // cleared
    m.diff_children(&items(&[1, 2]), &[]);
    m.diff_children(&items(&[1, 2]), &[text("a")]);
    // in the same order
    m.diff_children(&items(&[1, 2]), &items(&[1, 2, 3]));
    m.diff_children(&items(&[1, 2]), &items(&[1]));
    m.diff_children(&[keyed(1, "ul", items(&[5, 6]))], &[keyed(1, "ul", items(&[5, 6]))]);
    // with fresh keys only
    m.diff_children(&[keyed(1, "ul", items(&[5, 6]))], &[keyed(2, "ul", items(&[6, 5]))]);
    // beyond the new nodes
    m.diff_children(&[text("a"), inner()], &[text("b"), elem("i", vec![])]);
    assert_eq!(m.change_list.next_temporary(), u32::MAX);
}

#[test]
fn keyed_prefix_tells_whether_there_is_more_to_do() {
    let mut m = machine();
    assert!(matches!(
        m.diff_keyed_prefix(&items(&[1, 2]), &items(&[1, 2])),
        KeyedPrefixResult::Finished
    ));
    assert!(matches!(
        m.diff_keyed_prefix(&items(&[1]), &items(&[1, 2])),
        KeyedPrefixResult::Finished
    ));
    assert!(matches!(
        m.diff_keyed_prefix(&items(&[1, 2]), &items(&[1])),
        KeyedPrefixResult::Finished
    ));
    assert!(matches!(
        m.diff_keyed_prefix(&items(&[1, 2, 3]), &items(&[1, 2, 4])),
        KeyedPrefixResult::MoreWorkToDo(2)
    ));
    assert!(matches!(
        m.diff_keyed_prefix(&items(&[1]), &items(&[2])),
        KeyedPrefixResult::MoreWorkToDo(0)
    ));
}

#[test]
fn keyed_suffix_walks_from_its_start() {
    let mut m = machine();
    m.diff_keyed_suffix(&items(&[8, 9]), &items(&[8, 9]), 3);
    assert_eq!(
        emitted(&mut m),
        vec![
            go(Move::Down),
            go(Move::ToSibling(3)),
            go(Move::ToSibling(4)),
            go(Move::Up),
        ]
    );
}

#[test]
fn keyed_middle_counts_from_the_prefix() {
    let mut m = machine();
    m.diff_keyed_middle(&items(&[1, 2]), &items(&[2, 3]), 4, 1, 6);
    assert_eq!(
        emitted(&mut m),
        vec![
            save(0, 5, 6),
            Edit::RemoveChild(4),
            go(Move::DownToChild(5)),
            Edit::CreateElement("li"),
            Edit::InsertBefore,
            go(Move::ToTempSibling(0)),
            go(Move::Up),
        ]
    );
}

#[test]
fn keyed_middle_without_new_children_only_removes() {
    let mut m = machine();
    m.diff_keyed_middle(&items(&[1, 2]), &[], 1, 1, 3);
    assert_eq!(
        emitted(&mut m),
        vec![Edit::RemoveChild(2), Edit::RemoveChild(1)]
    );
}

#[test]
fn settling_moves_what_is_not_in_the_subsequence() {
    let olds = items(&[1, 2, 3]);
    let news = items(&[3, 1, 4]);
    let none = u32::MAX as usize;
    let mut m = machine();
    m.change_list.set_next_temporary(2);
    let mut lis: FxHashSet<usize> = FxHashSet::default();
    lis.insert(0);
    m.settle_keyed_middle(&olds, &news, &vec![2, 0, none], &vec![0, u32::MAX, 1], &lis, true, 7);
    assert_eq!(
        emitted(&mut m),
        vec![
            go(Move::DownToChild(7)),
            Edit::CreateElement("li"),
            Edit::InsertBefore,
            Edit::PushTemporary(0),
            Edit::InsertBefore,
            go(Move::ToTempSibling(1)),
            go(Move::Up),
        ]
    );
}

#[test]
fn created_elements_get_everything() {
    let node = VNode::Element(VElement {
        listeners: vec![
            Listener { event: "click", id: 1 },
            Listener { event: "input", id: 2 },
        ],
        attributes: vec![attr("a", "1"), attr("b", "2")],
        namespace: Some("svg"),
        ..element("g", vec![elem("p", vec![text("x")]), text("y")])
    });
    let mut m = machine();
    m.create(&node);
    assert_eq!(
        emitted(&mut m),
        vec![
            Edit::CreateElementNs { tag_name: "g", namespace: "svg" },
            Edit::NewEventListener(Listener { event: "click", id: 1 }),
            Edit::NewEventListener(Listener { event: "input", id: 2 }),
            Edit::SetAttribute { name: "a", value: "1", is_namespaced: true },
            Edit::SetAttribute { name: "b", value: "2", is_namespaced: true },
            Edit::CreateElement("p"),
            Edit::SetText("x"),
            Edit::AppendChild,
            Edit::CreateTextNode("y"),
            Edit::AppendChild,
        ]
    );
}

#[test]
fn children_are_removed_created_and_cut_off() {
    let mut m = machine();
    m.remove_all_children(&[text("a")]);
    m.create_and_append_children(&[text("b"), elem("p", vec![])]);
    m.remove_self_and_next_siblings(&[text("c")]);
    assert_eq!(
        emitted(&mut m),
        vec![
            Edit::SetText(""),
            Edit::CreateTextNode("b"),
            Edit::AppendChild,
            Edit::CreateElement("p"),
            Edit::AppendChild,
            Edit::RemoveSelfAndNextSiblings,
        ]
    );
}

#[test]
fn appending_no_children_emits_nothing() {
    let mut m = machine();
    m.create_and_append_children(&[]);
    assert_eq!(emitted(&mut m), vec![]);
}

#[test]
fn edits_are_batched_in_one_list() {
    let mut m = machine();
    m.diff_node(&text("a"), &text("b"));
    m.change_list.go_up();
    m.diff_node(&text("c"), &text("d"));
    assert_eq!(
        m.change_list.edits(),
        &vec![Edit::SetText("b"), go(Move::Up), Edit::SetText("d")]
    );
}

#[test]
fn the_queues_are_left_alone() {
    let mut arena: generational_arena::Arena<u8> = generational_arena::Arena::new();
    let i = arena.insert(0);
    let mut m = machine();
    m.immediate_queue.push(i);
    m.diffed.insert(i);
    m.diff_node(&text("a"), &text("b"));
    assert_eq!(m.immediate_queue, vec![i]);
    assert!(m.diffed.contains(&i));
    assert!(m.need_to_diff.is_empty());
}

#[test]
fn longest_increasing_subsequences_are_found() {
    let sorted = |items: Vec<usize>| {
        let mut r: Vec<usize> = longest_increasing_subsequence_of(&items).into_iter().collect();
        r.sort();
        r
    };
    assert_eq!(sorted(vec![]), vec![]);
    assert_eq!(sorted(vec![5]), vec![0]);
    assert_eq!(sorted(vec![2, 0, 1, 3]), vec![1, 2, 3]);
    assert_eq!(sorted(vec![3, 2, 1]).len(), 1);
    // Equal items do not increase, and the least last item wins.
    assert_eq!(sorted(vec![9, 9, 9]).len(), 1);
    assert_eq!(sorted(vec![9, 4]), vec![1]);
    assert_eq!(sorted(vec![1, 9, 3]), vec![0, 2]);
}

#[test]
fn change_lists_keep_moves_back_until_they_are_committed() {
    let mut list: EditList = EditList::new();
    assert!(list.traversal_is_committed());
    list.go_down();
    list.go_to_sibling(3);
    assert!(!list.traversal_is_committed());
    assert_eq!(list.edits(), &vec![]);
    list.commit_traversal();
    assert!(list.traversal_is_committed());
    assert_eq!(list.edits(), &vec![go(Move::Down), go(Move::ToSibling(3))]);
    assert_eq!(list.save_children_to_temporaries(1, 4), 0);
    assert_eq!(list.next_temporary(), 3);
    assert_eq!(list.save_children_to_temporaries(0, 1), 3);
    assert_eq!(list.next_temporary(), 4);
}
