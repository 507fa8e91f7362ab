use ruukh_vdom::dom::{DomError, LiveDom, LiveKind, NodeId};
use ruukh_vdom::velement::{Attribute, VElement};
use ruukh_vdom::vlist::VList;
use ruukh_vdom::vtext::VText;
use ruukh_vdom::{Key, KeyedVNodes, VNode};

fn text_child(key: &str, content: &str) -> KeyedVNodes {
    KeyedVNodes::keyed(Key::from(String::from(key)), VNode::Text(VText::text(content)))
}

fn list_of(children: Vec<KeyedVNodes>) -> KeyedVNodes {
    KeyedVNodes::unkeyed(VNode::List(VList { children, node: None }))
}

fn content_of(dom: &LiveDom, id: NodeId) -> String {
    match &dom.nodes[id].kind {
        LiveKind::Text { content } => content.clone(),
        LiveKind::Element { tag } => panic!("expected a text node, found element {}", tag),
    }
}

#[test]
fn should_display_vnode() {
    let node = KeyedVNodes::unkeyed(VNode::Text(VText::text("Hello World!")));
    assert_eq!(node.markup_string(), "Hello World!");
}

#[test]
fn element_markup_wraps_children() {
    let tree = KeyedVNodes::unkeyed(VNode::Element(VElement {
        tag: String::from("div"),
        attributes: vec![],
        child: Some(Box::new(list_of(vec![text_child("1", "a"), text_child("2", "b")]))),
        node: None,
    }));
    assert_eq!(tree.markup_string(), "<div>ab</div>");
}

#[test]
fn mount_appends_texts_in_order() {
    let mut dom = LiveDom::new();
    let root = dom.create_element(String::from("root"));
    let tree = list_of(vec![text_child("1", "a"), text_child("2", "b")]);
    let before = dom.ops;
    let mounted = tree.mount(&mut dom, root, None).unwrap();
    assert_eq!(dom.nodes[root].children.len(), 3, "two texts and the list anchor");
    let a = dom.nodes[root].children[0];
    let b = dom.nodes[root].children[1];
    assert_eq!(content_of(&dom, a), "a");
    assert_eq!(content_of(&dom, b), "b");
    assert_eq!(content_of(&dom, dom.nodes[root].children[2]), "", "the anchor is empty");
    assert_eq!(dom.ops.creates, before.creates + 3);
    assert_eq!(dom.ops.removes, before.removes);
    assert!(mounted.node().is_some());
}

#[test]
fn idempotent_repatch_issues_no_calls() {
    let mut dom = LiveDom::new();
    let root = dom.create_element(String::from("root"));
    let build = || {
        KeyedVNodes::unkeyed(VNode::Element(VElement {
            tag: String::from("div"),
            attributes: vec![Attribute {
                name: String::from("class"),
                value: String::from("wide"),
            }],
            child: Some(Box::new(list_of(vec![
                text_child("1", "a"),
                text_child("2", "b"),
                text_child("3", "c"),
            ]))),
            node: None,
        }))
    };
    let mounted = build().mount(&mut dom, root, None).unwrap();
    let before = dom.ops;
    let repatched = build().patch(Some(mounted), &mut dom, root, None).unwrap();
    assert_eq!(dom.ops, before);
    assert!(repatched.node().is_some());
}

#[test]
fn keyed_reorder_never_creates_or_destroys() {
    let mut dom = LiveDom::new();
    let root = dom.create_element(String::from("root"));
    let old_tree = list_of(vec![
        text_child("a", "one"),
        text_child("b", "two"),
        text_child("c", "three"),
    ]);
    let mounted = old_tree.mount(&mut dom, root, None).unwrap();
    let ids_before: Vec<NodeId> = dom.nodes[root].children.clone();
    assert_eq!(ids_before.len(), 4, "three texts and the list anchor");
    let before = dom.ops;
    let new_tree = list_of(vec![
        text_child("c", "three"),
        text_child("a", "one"),
        text_child("b", "two"),
    ]);
    new_tree.patch(Some(mounted), &mut dom, root, None).unwrap();
    assert_eq!(dom.ops.creates, before.creates);
    assert_eq!(dom.ops.removes, before.removes);
    assert!(dom.ops.moves > before.moves);
    let ids_after: Vec<NodeId> = dom.nodes[root].children.clone();
    assert_eq!(
        ids_after,
        vec![ids_before[2], ids_before[0], ids_before[1], ids_before[3]]
    );
    assert_eq!(content_of(&dom, ids_after[0]), "three");
    assert_eq!(content_of(&dom, ids_after[1]), "one");
    assert_eq!(content_of(&dom, ids_after[2]), "two");
}

#[test]
fn kind_mismatch_destroys_and_mounts() {
    let mut dom = LiveDom::new();
    let root = dom.create_element(String::from("root"));
    let old_tree = KeyedVNodes::keyed(
        Key::from(1u64),
        VNode::Element(VElement {
            tag: String::from("span"),
            attributes: vec![],
            child: None,
            node: None,
        }),
    );
    let mounted = old_tree.mount(&mut dom, root, None).unwrap();
    let old_id = mounted.node().unwrap();
    let fresh_floor = dom.nodes.len();
    let before = dom.ops;
    let new_tree = KeyedVNodes::keyed(Key::from(1u64), VNode::Text(VText::text("t")));
    let patched = new_tree.patch(Some(mounted), &mut dom, root, None).unwrap();
    let new_id = patched.node().unwrap();
    assert!(new_id >= fresh_floor);
    assert_ne!(new_id, old_id);
    assert!(!dom.nodes[root].children.contains(&old_id));
    assert!(dom.ops.creates > before.creates);
    assert!(dom.ops.removes > before.removes);
}

#[test]
fn key_mismatch_replaces_slot() {
    let mut dom = LiveDom::new();
    let root = dom.create_element(String::from("root"));
    let mounted = text_child("1", "a").mount(&mut dom, root, None).unwrap();
    let old_id = mounted.node().unwrap();
    let before = dom.ops;
    let patched = text_child("2", "a")
        .patch(Some(mounted), &mut dom, root, None)
        .unwrap();
    assert_ne!(patched.node().unwrap(), old_id);
    assert!(dom.ops.creates > before.creates);
    assert!(dom.ops.removes > before.removes);
}

#[test]
fn end_to_end_keyed_scenario() {
    let mut dom = LiveDom::new();
    let root = dom.create_element(String::from("root"));
    let old_tree = list_of(vec![text_child("1", "a"), text_child("2", "b")]);
    let mounted = old_tree.mount(&mut dom, root, None).unwrap();
    let id_a = dom.nodes[root].children[0];
    let id_b = dom.nodes[root].children[1];
    let anchor = dom.nodes[root].children[2];
    assert_eq!(content_of(&dom, id_a), "a");
    assert_eq!(content_of(&dom, id_b), "b");
    let before = dom.ops;
    let new_tree = list_of(vec![text_child("2", "b"), text_child("1", "a changed")]);
    new_tree.patch(Some(mounted), &mut dom, root, None).unwrap();
    assert_eq!(dom.ops.creates, before.creates, "no node created");
    assert_eq!(dom.ops.removes, before.removes, "no node destroyed");
    assert_eq!(dom.nodes[root].children, vec![id_b, id_a, anchor]);
    assert_eq!(content_of(&dom, id_b), "b");
    assert_eq!(content_of(&dom, id_a), "a changed");
}

#[test]
fn text_update_in_place() {
    let mut dom = LiveDom::new();
    let root = dom.create_element(String::from("root"));
    let mounted = text_child("1", "before").mount(&mut dom, root, None).unwrap();
    let id = mounted.node().unwrap();
    let before = dom.ops;
    let patched = text_child("1", "after")
        .patch(Some(mounted), &mut dom, root, None)
        .unwrap();
    assert_eq!(patched.node().unwrap(), id);
    assert_eq!(content_of(&dom, id), "after");
    assert_eq!(dom.ops.text_sets, before.text_sets + 1);
    assert_eq!(dom.ops.creates, before.creates);
}

#[test]
fn attribute_diff_updates_and_removes() {
    let mut dom = LiveDom::new();
    let root = dom.create_element(String::from("root"));
    let old_el = KeyedVNodes::unkeyed(VNode::Element(VElement {
        tag: String::from("div"),
        attributes: vec![
            Attribute { name: String::from("class"), value: String::from("x") },
            Attribute { name: String::from("id"), value: String::from("keep") },
            Attribute { name: String::from("stale"), value: String::from("y") },
        ],
        child: None,
        node: None,
    }));
    let mounted = old_el.mount(&mut dom, root, None).unwrap();
    let id = mounted.node().unwrap();
    let new_el = KeyedVNodes::unkeyed(VNode::Element(VElement {
        tag: String::from("div"),
        attributes: vec![
            Attribute { name: String::from("class"), value: String::from("z") },
            Attribute { name: String::from("id"), value: String::from("keep") },
        ],
        child: None,
        node: None,
    }));
    let patched = new_el.patch(Some(mounted), &mut dom, root, None).unwrap();
    assert_eq!(patched.node().unwrap(), id);
    let attrs = &dom.nodes[id].attrs;
    assert!(attrs.iter().any(|(n, v)| n == "class" && v == "z"));
    assert!(attrs.iter().any(|(n, v)| n == "id" && v == "keep"));
    assert!(!attrs.iter().any(|(n, _)| n == "stale"));
}

#[test]
fn remove_detaches_all_slots() {
    let mut dom = LiveDom::new();
    let root = dom.create_element(String::from("root"));
    let tree = list_of(vec![text_child("1", "a"), text_child("2", "b")]);
    let mounted = tree.mount(&mut dom, root, None).unwrap();
    let before = dom.ops;
    mounted.remove(&mut dom, root).unwrap();
    assert!(dom.nodes[root].children.is_empty());
    assert_eq!(dom.ops.removes, before.removes + 3, "two texts and the anchor");
    assert_eq!(dom.ops.creates, before.creates);
}

#[test]
fn dom_rejects_bad_handles() {
    let mut dom = LiveDom::new();
    let root = dom.create_element(String::from("root"));
    let t = dom.create_text(String::from("x"));
    assert_eq!(dom.set_text(99, String::from("y")), Err(DomError::NoSuchNode));
    assert_eq!(dom.set_text(root, String::from("y")), Err(DomError::NotAText));
    assert_eq!(
        dom.set_attribute(t, String::from("a"), String::from("b")),
        Err(DomError::NotAnElement)
    );
    assert_eq!(dom.insert_before(root, root, None), Err(DomError::SelfChild));
    assert_eq!(dom.move_before(root, t, None), Err(DomError::NotAChild));
    assert_eq!(dom.remove_child(root, t), Err(DomError::NotAChild));
    dom.insert_before(root, t, None).unwrap();
    assert_eq!(dom.insert_before(root, t, None), Err(DomError::AlreadyPresent));
    assert_eq!(dom.remove_attribute(99, &String::from("a")), Err(DomError::NoSuchNode));
}

#[test]
fn insert_before_positions_nodes() {
    let mut dom = LiveDom::new();
    let root = dom.create_element(String::from("root"));
    let a = dom.create_text(String::from("a"));
    let b = dom.create_text(String::from("b"));
    let c = dom.create_text(String::from("c"));
    dom.insert_before(root, a, None).unwrap();
    dom.insert_before(root, c, None).unwrap();
    dom.insert_before(root, b, Some(c)).unwrap();
    assert_eq!(dom.nodes[root].children, vec![a, b, c]);
    dom.move_before(root, c, Some(a)).unwrap();
    assert_eq!(dom.nodes[root].children, vec![c, a, b]);
    dom.remove_child(root, a).unwrap();
    assert_eq!(dom.nodes[root].children, vec![c, b]);
}

#[test]
fn keys_compare_by_variant_and_value() {
    assert!(Key::from(5i32) == Key::from(5i64));
    assert!(Key::from(5u8) == Key::from(5u64));
    assert!(Key::from(5i64) != Key::from(5u64));
    assert!(Key::from(String::from("a")) == Key::from(String::from("a")));
    assert!(Key::from(String::from("a")) != Key::from(String::from("b")));
    assert!(Key::opt_eq(&None, &None));
    assert!(!Key::opt_eq(&Some(Key::from(1u64)), &None));
    assert!(Key::opt_eq(&Some(Key::from(-3i8)), &Some(Key::from(-3i64))));
}

#[test]
fn list_patch_removes_vanished_children() {
    let mut dom = LiveDom::new();
    let root = dom.create_element(String::from("root"));
    let old_tree = list_of(vec![
        text_child("1", "a"),
        text_child("2", "b"),
        text_child("3", "c"),
    ]);
    let mounted = old_tree.mount(&mut dom, root, None).unwrap();
    let keep = dom.nodes[root].children[0];
    let anchor = dom.nodes[root].children[3];
    let before = dom.ops;
    let new_tree = list_of(vec![text_child("1", "a")]);
    new_tree.patch(Some(mounted), &mut dom, root, None).unwrap();
    assert_eq!(dom.nodes[root].children, vec![keep, anchor]);
    assert_eq!(dom.ops.removes, before.removes + 2);
    assert_eq!(dom.ops.creates, before.creates);
}

#[test]
fn list_patch_mounts_new_children() {
    let mut dom = LiveDom::new();
    let root = dom.create_element(String::from("root"));
    let old_tree = list_of(vec![text_child("1", "a")]);
    let mounted = old_tree.mount(&mut dom, root, None).unwrap();
    let before = dom.ops;
    let new_tree = list_of(vec![text_child("1", "a"), text_child("2", "b")]);
    new_tree.patch(Some(mounted), &mut dom, root, None).unwrap();
    assert_eq!(dom.nodes[root].children.len(), 3, "two texts and the anchor");
    assert_eq!(dom.ops.creates, before.creates + 1);
    assert_eq!(dom.ops.removes, before.removes);
    assert_eq!(content_of(&dom, dom.nodes[root].children[1]), "b");
}

#[test]
fn nested_list_moves_every_slot() {
    let mut dom = LiveDom::new();
    let root = dom.create_element(String::from("root"));
    let group = |k: &str| {
        KeyedVNodes::keyed(
            Key::from(String::from(k)),
            VNode::List(VList {
                children: vec![text_child("x", "a"), text_child("y", "b")],
                node: None,
            }),
        )
    };
    let old_tree = list_of(vec![group("grp"), text_child("z", "c")]);
    let mounted = old_tree.mount(&mut dom, root, None).unwrap();
    let ids = dom.nodes[root].children.clone();
    assert_eq!(ids.len(), 5, "two texts, the inner anchor, one text, the outer anchor");
    assert_eq!(content_of(&dom, ids[0]), "a");
    assert_eq!(content_of(&dom, ids[1]), "b");
    assert_eq!(content_of(&dom, ids[3]), "c");
    let before = dom.ops;
    let new_tree = list_of(vec![text_child("z", "c"), group("grp")]);
    new_tree.patch(Some(mounted), &mut dom, root, None).unwrap();
    assert_eq!(dom.ops.creates, before.creates);
    assert_eq!(dom.ops.removes, before.removes);
    assert_eq!(
        dom.nodes[root].children,
        vec![ids[3], ids[0], ids[1], ids[2], ids[4]],
        "text c first, then the group's texts, its anchor, and the outer anchor"
    );
}

#[test]
fn empty_list_mounts_only_its_anchor() {
    let mut dom = LiveDom::new();
    let root = dom.create_element(String::from("root"));
    let before = dom.ops;
    let tree = list_of(vec![]);
    let mounted = tree.mount(&mut dom, root, None).unwrap();
    assert_eq!(dom.ops.creates, before.creates + 1, "the anchor node");
    assert_eq!(dom.nodes[root].children.len(), 1);
    assert!(mounted.node().is_some(), "a mounted empty list still owns its anchor");
    assert_eq!(mounted.markup_string(), "");
    let before2 = dom.ops;
    let repatched = list_of(vec![]).patch(Some(mounted), &mut dom, root, None).unwrap();
    assert_eq!(dom.ops, before2, "re-patching the empty list issues nothing");
    assert!(repatched.node().is_some());
}

#[test]
fn mount_respects_the_next_hint() {
    let mut dom = LiveDom::new();
    let root = dom.create_element(String::from("root"));
    let existing = dom.create_text(String::from("later"));
    dom.insert_before(root, existing, None).unwrap();
    let mounted = text_child("1", "x").mount(&mut dom, root, Some(existing)).unwrap();
    assert_eq!(dom.nodes[root].children, vec![mounted.node().unwrap(), existing]);
}

#[test]
fn from_text_builds_the_same_key_as_from_string() {
    assert!(Key::from_text("a") == Key::from(String::from("a")));
    assert!(Key::from_text("a") != Key::from_text("b"));
    assert!(Key::from("a") == Key::from_text("a"));
}
