use virtual_view_dom::{
    Dom, Events, NodesIds, Order, Patch, PatchError, Patcher, Prop, Props, RawView, Transaction,
};

fn text(s: &str) -> RawView {
    RawView::Text(String::from(s))
}

fn div(children: Vec<RawView>) -> RawView {
    RawView::Data { kind: String::from("div"), key: None, props: Props::new(), children }
}

fn keyed_div(key: &str) -> RawView {
    RawView::Data {
        kind: String::from("div"),
        key: Some(String::from(key)),
        props: Props::new(),
        children: vec![],
    }
}

fn s(x: &str) -> String {
    String::from(x)
}

#[test]
fn mount_registers_every_derived_id() {
    let mut patcher = Patcher::new();
    let mut txn = Transaction::new();
    txn.mount(&s("0"), div(vec![text("a"), div(vec![text("b")])]));
    assert!(patcher.patch(&txn).is_ok());
    // ids: 0, 0.0, 0.1, 0.1.0
    assert_eq!(patcher.registered_count(), 4);
    assert!(patcher.node(&s("0")).is_some());
    assert!(patcher.node(&s("0.0")).is_some());
    assert!(patcher.node(&s("0.1")).is_some());
    assert!(patcher.node(&s("0.1.0")).is_some());
    assert!(patcher.node(&s("0.2")).is_none());
    let root_children = patcher.dom().child_nodes(patcher.root());
    assert_eq!(root_children.len(), 1);
    let mounted = patcher.node(&s("0")).unwrap();
    assert_eq!(root_children[0], mounted);
}

#[test]
fn id_and_node_invert_each_other() {
    let mut patcher = Patcher::new();
    let mut txn = Transaction::new();
    txn.mount(&s("0"), div(vec![text("a"), text("b")]));
    assert!(patcher.patch(&txn).is_ok());
    for id in ["0", "0.0", "0.1"] {
        let node = patcher.node(&s(id)).unwrap();
        assert_eq!(patcher.id(&node).unwrap(), id);
    }
}

#[test]
fn mount_then_remove_purges_every_registered_id() {
    let mut patcher = Patcher::new();
    let view = div(vec![text("a"), div(vec![text("b"), text("c")])]);
    let mut txn = Transaction::new();
    txn.mount(&s("0"), view);
    assert!(patcher.patch(&txn).is_ok());
    assert_eq!(patcher.registered_count(), 5);
    let view_again = div(vec![text("a"), div(vec![text("b"), text("c")])]);
    let mut txn2 = Transaction::new();
    txn2.remove(&s("0"), view_again);
    assert!(patcher.patch(&txn2).is_ok());
    assert_eq!(patcher.registered_count(), 0);
    assert_eq!(patcher.dom().child_nodes(patcher.root()).len(), 0);
}

#[test]
fn order_moves_keyed_children_without_recreating_them() {
    let mut patcher = Patcher::new();
    let parent = div(vec![keyed_div("A"), keyed_div("B"), keyed_div("C"), keyed_div("D")]);
    let mut txn = Transaction::new();
    txn.mount(&s("0"), parent);
    assert!(patcher.patch(&txn).is_ok());
    let a = patcher.node(&s("0.A")).unwrap();
    let b = patcher.node(&s("0.B")).unwrap();
    let c = patcher.node(&s("0.C")).unwrap();
    let d = patcher.node(&s("0.D")).unwrap();
    let order = Order::new(
        vec![(1, Some(s("B"))), (3, Some(s("D")))],
        vec![(Some(s("D")), 0), (Some(s("B")), 2)],
    );
    let mut txn2 = Transaction::new();
    txn2.append(s("0"), Patch::Order(order));
    assert!(patcher.patch(&txn2).is_ok());
    let p = patcher.node(&s("0")).unwrap();
    let children = patcher.dom().child_nodes(p);
    assert_eq!(children.len(), 4);
    assert_eq!(children[0], d);
    assert_eq!(children[1], a);
    assert_eq!(children[2], b);
    assert_eq!(children[3], c);
    // the reordered nodes are the same instances, still registered
    assert_eq!(patcher.node(&s("0.B")).unwrap(), b);
    assert_eq!(patcher.node(&s("0.D")).unwrap(), d);
}

#[test]
fn order_insert_without_stashed_key_is_skipped() {
    let mut patcher = Patcher::new();
    let parent = div(vec![keyed_div("A"), keyed_div("B")]);
    let mut txn = Transaction::new();
    txn.mount(&s("0"), parent);
    assert!(patcher.patch(&txn).is_ok());
    let a = patcher.node(&s("0.A")).unwrap();
    let b = patcher.node(&s("0.B")).unwrap();
    let order = Order::new(vec![], vec![(Some(s("Z")), 0), (None, 1)]);
    let mut txn2 = Transaction::new();
    txn2.append(s("0"), Patch::Order(order));
    assert!(patcher.patch(&txn2).is_ok());
    let p = patcher.node(&s("0")).unwrap();
    let children = patcher.dom().child_nodes(p);
    assert_eq!(children.len(), 2);
    assert_eq!(children[0], a);
    assert_eq!(children[1], b);
}

#[test]
fn order_with_out_of_range_index_aborts() {
    let mut patcher = Patcher::new();
    let mut txn = Transaction::new();
    txn.mount(&s("0"), div(vec![keyed_div("A")]));
    assert!(patcher.patch(&txn).is_ok());
    let order = Order::new(vec![(5, Some(s("A")))], vec![]);
    let mut txn2 = Transaction::new();
    txn2.append(s("0"), Patch::Order(order));
    assert_eq!(patcher.patch(&txn2), Err(PatchError::IndexOutOfRange));
}

#[test]
fn props_round_trip_leaves_style_empty() {
    let mut patcher = Patcher::new();
    let mut txn = Transaction::new();
    txn.mount(&s("0"), div(vec![]));
    assert!(patcher.patch(&txn).is_ok());
    let node = patcher.node(&s("0")).unwrap();

    let mut style = Props::new();
    style.set(s("color"), Prop::Str(s("#f00")));
    let mut diff = Props::new();
    diff.set(s("style"), Prop::Object(style));
    let mut txn2 = Transaction::new();
    txn2.append(s("0"), Patch::Props(Props::new(), diff));
    assert!(patcher.patch(&txn2).is_ok());
    match patcher.dom().style_value(node, &s("color")) {
        Some(Prop::Str(v)) => assert_eq!(v, "#f00"),
        _ => panic!("expected the color style to be set"),
    }

    let mut prev_style = Props::new();
    prev_style.set(s("color"), Prop::Str(s("#f00")));
    let mut prev = Props::new();
    prev.set(s("style"), Prop::Object(prev_style));
    let mut diff2 = Props::new();
    diff2.set(s("style"), Prop::Null);
    let mut txn3 = Transaction::new();
    txn3.append(s("0"), Patch::Props(prev, diff2));
    assert!(patcher.patch(&txn3).is_ok());
    match patcher.dom().style_value(node, &s("color")) {
        Some(Prop::Str(v)) => assert_eq!(v, ""),
        _ => panic!("expected the color style to be cleared to empty"),
    }
}

#[test]
fn scalar_prop_lands_as_serialized_attribute() {
    let mut patcher = Patcher::new();
    let mut txn = Transaction::new();
    txn.mount(&s("0"), div(vec![]));
    assert!(patcher.patch(&txn).is_ok());
    let node = patcher.node(&s("0")).unwrap();
    let mut diff = Props::new();
    diff.set(s("class"), Prop::Str(s("Root")));
    let mut txn2 = Transaction::new();
    txn2.append(s("0"), Patch::Props(Props::new(), diff));
    assert!(patcher.patch(&txn2).is_ok());
    match patcher.dom().attribute(node, &s("class")) {
        Some(Prop::Str(v)) => assert_eq!(v, "\"Root\""),
        _ => panic!("expected the serialized attribute"),
    }
}

#[test]
fn unsetting_a_prop_without_previous_value_aborts() {
    let mut patcher = Patcher::new();
    let mut txn = Transaction::new();
    txn.mount(&s("0"), div(vec![]));
    assert!(patcher.patch(&txn).is_ok());
    let mut diff = Props::new();
    diff.set(s("class"), Prop::Null);
    let mut txn2 = Transaction::new();
    txn2.append(s("0"), Patch::Props(Props::new(), diff));
    assert_eq!(patcher.patch(&txn2), Err(PatchError::MissingPreviousProp));
}

#[test]
fn patch_on_unknown_id_aborts() {
    let mut patcher = Patcher::new();
    let mut txn = Transaction::new();
    txn.append(s("9"), Patch::Insert(s("9.0"), 0, text("x")));
    assert_eq!(patcher.patch(&txn), Err(PatchError::MissingNode));
}

#[test]
fn remove_entry_with_too_small_view_aborts() {
    let mut patcher = Patcher::new();
    let mut txn = Transaction::new();
    txn.mount(&s("0"), div(vec![text("a")]));
    assert!(patcher.patch(&txn).is_ok());
    let mut txn2 = Transaction::new();
    txn2.remove(&s("0"), div(vec![]));
    assert_eq!(patcher.patch(&txn2), Err(PatchError::ShapeMismatch));
}

#[test]
fn insert_places_new_child_one_slot_past_the_index() {
    let mut patcher = Patcher::new();
    let mut txn = Transaction::new();
    txn.mount(&s("0"), div(vec![text("a"), text("b"), text("c")]));
    assert!(patcher.patch(&txn).is_ok());
    let p = patcher.node(&s("0")).unwrap();
    let before = patcher.dom().child_nodes(p);
    let mut txn2 = Transaction::new();
    txn2.append(s("0"), Patch::Insert(s("0.3"), 0, text("new")));
    assert!(patcher.patch(&txn2).is_ok());
    let new_node = patcher.node(&s("0.3")).unwrap();
    let after = patcher.dom().child_nodes(p);
    assert_eq!(after.len(), 4);
    // the engine inserts before the current child at index + 1
    assert_eq!(after[0], before[0]);
    assert_eq!(after[1], new_node);
    assert_eq!(after[2], before[1]);
    assert_eq!(after[3], before[2]);
}

#[test]
fn replace_swaps_in_a_fresh_node() {
    let mut patcher = Patcher::new();
    let mut txn = Transaction::new();
    txn.mount(&s("0"), div(vec![text("Count 0")]));
    assert!(patcher.patch(&txn).is_ok());
    let old_node = patcher.node(&s("0")).unwrap();

    let prev = div(vec![text("Count 0")]);
    let next = div(vec![text("Count 1")]);
    let mut txn2 = Transaction::new();
    txn2.append(s("0"), Patch::Replace(prev, next));
    assert!(patcher.patch(&txn2).is_ok());

    let new_node = patcher.node(&s("0")).unwrap();
    assert_ne!(new_node, old_node);
    let root_children = patcher.dom().child_nodes(patcher.root());
    assert_eq!(root_children.len(), 1);
    assert_eq!(root_children[0], new_node);
    let inner = patcher.dom().child_nodes(new_node);
    assert_eq!(inner.len(), 1);
    assert_eq!(patcher.dom().text_content(inner[0]), "Count 1");
}

#[test]
fn event_subscriptions_share_one_native_listener() {
    let mut dom = Dom::new();
    let mut events = Events::new();
    events.listen(&s("click"), &s("a"), &mut dom);
    events.listen(&s("click"), &s("b"), &mut dom);
    assert_eq!(dom.listener_count(&s("click")), 1);
    events.unlisten(&s("click"), &s("a"), &mut dom);
    assert_eq!(dom.listener_count(&s("click")), 1);
    events.unlisten(&s("click"), &s("b"), &mut dom);
    assert_eq!(dom.listener_count(&s("click")), 0);
}

#[test]
fn event_phase_strips_the_on_prefix() {
    let mut patcher = Patcher::new();
    let mut txn = Transaction::new();
    txn.mount(&s("0"), div(vec![]));
    txn.set_event(&s("0"), &s("onclick"), true);
    assert!(patcher.patch(&txn).is_ok());
    assert_eq!(patcher.dom().listener_count(&s("click")), 1);
    assert_eq!(patcher.dom().listener_count(&s("onclick")), 0);
    let mut txn2 = Transaction::new();
    txn2.set_event(&s("0"), &s("onclick"), false);
    assert!(patcher.patch(&txn2).is_ok());
    assert_eq!(patcher.dom().listener_count(&s("click")), 0);
}

#[test]
fn event_handle_resolves_only_exact_targets() {
    let mut patcher = Patcher::new();
    let mut txn = Transaction::new();
    txn.mount(&s("0"), div(vec![]));
    assert!(patcher.patch(&txn).is_ok());
    let node = patcher.node(&s("0")).unwrap();
    let mut ids = NodesIds::new();
    ids.insert(s("0"), node);
    match Events::handle(&ids, node, s("click"), Props::new()) {
        Some((id, event)) => {
            assert_eq!(id, "0");
            assert_eq!(event.name(), "click");
            assert!(event.propagation());
        },
        None => panic!("expected the target to resolve"),
    }
    let stranger = patcher.root();
    assert!(Events::handle(&ids, stranger, s("click"), Props::new()).is_none());
}

#[test]
fn stop_propagation_clears_the_flag() {
    let mut ids = NodesIds::new();
    let mut patcher = Patcher::new();
    let mut txn = Transaction::new();
    txn.mount(&s("0"), div(vec![]));
    assert!(patcher.patch(&txn).is_ok());
    let node = patcher.node(&s("0")).unwrap();
    ids.insert(s("0"), node);
    let (_, mut event) = Events::handle(&ids, node, s("click"), Props::new()).unwrap();
    assert!(event.propagation());
    event.stop_propagation();
    assert!(!event.propagation());
}

#[test]
fn identity_map_overwrites_both_directions() {
    let mut patcher = Patcher::new();
    let mut txn = Transaction::new();
    txn.mount(&s("0"), div(vec![text("a")]));
    assert!(patcher.patch(&txn).is_ok());
    let n0 = patcher.node(&s("0")).unwrap();
    let n1 = patcher.node(&s("0.0")).unwrap();
    let mut ids = NodesIds::new();
    ids.insert(s("a"), n0);
    ids.insert(s("b"), n1);
    assert_eq!(ids.len(), 2);
    // re-registering the same node under a new id drops the stale id
    ids.insert(s("c"), n0);
    assert_eq!(ids.len(), 2);
    assert!(ids.node(&s("a")).is_none());
    assert_eq!(ids.node(&s("c")).unwrap(), n0);
    assert_eq!(ids.id(&n0).unwrap(), "c");
    let removed = ids.remove_id(&s("b"));
    assert_eq!(removed.unwrap(), n1);
    assert!(ids.id(&n1).is_none());
}

#[test]
fn transaction_groups_patches_by_id() {
    let mut txn = Transaction::new();
    assert!(txn.is_empty());
    txn.append(s("0"), Patch::Mount(div(vec![])));
    txn.append(s("0"), Patch::Props(Props::new(), Props::new()));
    txn.append(s("1"), Patch::Mount(div(vec![])));
    assert_eq!(txn.patches.len(), 2);
    assert_eq!(txn.patches[0].1.len(), 2);
    assert_eq!(txn.patches[1].1.len(), 1);
    assert!(!txn.is_empty());
}
