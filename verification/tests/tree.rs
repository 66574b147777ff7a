use widget_core::event::{EventKind, LifeCycle, Record, TraceRecord};
use widget_core::geom::WidgetRect;
use widget_core::tree::WidgetTree;

fn rect(x: i64, y: i64, w: i64, h: i64) -> WidgetRect {
    WidgetRect::new(x, y, w, h)
}

fn filter_id(tr: &[TraceRecord], id: u64) -> Vec<Record> {
    tr.iter().filter(|r| r.id == id).map(|r| r.rec).collect()
}

/// A vertical split of an empty box and a padded button, with the rects
/// the split layout assigns; pointer moves produce exactly the
/// documented HotChanged sequence per node.
#[test]
fn propogate_hot() {
    let mut t = WidgetTree::new();
    let root = t.add_root(rect(0, 0, 400, 400), false, false, None);
    let empty = t.add_child(root, rect(0, 0, 200, 400), false, false, None);
    let pad = t.add_child(root, rect(200, 0, 200, 400), false, false, None);
    let button = t.add_child(pad, rect(50, 50, 100, 300), false, true, None);
    t.register_children();
    let (root, empty, pad, button) = (
        t.widget_id(root),
        t.widget_id(empty),
        t.widget_id(pad),
        t.widget_id(button),
    );

    for i in 0..t.len() {
        assert!(!t.is_hot(i));
    }

    let tr = t.pointer_move(10, 10);
    assert!(t.is_hot(root as usize));
    assert!(t.is_hot(empty as usize));
    assert!(!t.is_hot(pad as usize));
    assert_eq!(
        filter_id(&tr, root),
        vec![
            Record::L(LifeCycle::HotChanged(true)),
            Record::E(EventKind::MouseMoved)
        ]
    );
    assert!(filter_id(&tr, pad).is_empty());
    assert!(filter_id(&tr, button).is_empty());

    let tr = t.pointer_move(210, 10);
    assert!(t.is_hot(root as usize));
    assert!(!t.is_hot(empty as usize));
    assert!(!t.is_hot(button as usize));
    assert!(t.is_hot(pad as usize));
    assert_eq!(filter_id(&tr, root), vec![Record::E(EventKind::MouseMoved)]);
    assert_eq!(
        filter_id(&tr, pad),
        vec![
            Record::L(LifeCycle::HotChanged(true)),
            Record::E(EventKind::MouseMoved)
        ]
    );
    assert!(filter_id(&tr, button).is_empty());

    let tr = t.pointer_move(260, 60);
    assert!(t.is_hot(root as usize));
    assert!(!t.is_hot(empty as usize));
    assert!(t.is_hot(button as usize));
    assert!(t.is_hot(pad as usize));
    assert_eq!(filter_id(&tr, root), vec![Record::E(EventKind::MouseMoved)]);
    assert_eq!(filter_id(&tr, pad), vec![Record::E(EventKind::MouseMoved)]);
    assert_eq!(
        filter_id(&tr, button),
        vec![
            Record::L(LifeCycle::HotChanged(true)),
            Record::E(EventKind::MouseMoved)
        ]
    );

    let tr = t.pointer_move(10, 10);
    assert!(t.is_hot(root as usize));
    assert!(t.is_hot(empty as usize));
    assert!(!t.is_hot(button as usize));
    assert!(!t.is_hot(pad as usize));
    assert_eq!(filter_id(&tr, root), vec![Record::E(EventKind::MouseMoved)]);
    assert_eq!(
        filter_id(&tr, pad),
        vec![
            Record::L(LifeCycle::HotChanged(false)),
            Record::E(EventKind::MouseMoved)
        ]
    );
    assert_eq!(
        filter_id(&tr, button),
        vec![
            Record::L(LifeCycle::HotChanged(false)),
            Record::E(EventKind::MouseMoved)
        ]
    );
}

/// The first widget to request focus during a broadcast gets it; an
/// addressed command moves it.
#[test]
fn take_focus() {
    let take_focus: u64 = 17;
    let mut t = WidgetTree::new();
    let root = t.add_root(rect(0, 0, 400, 400), false, false, None);
    let left = t.add_child(root, rect(0, 0, 200, 400), true, false, Some(take_focus));
    let right = t.add_child(root, rect(200, 0, 200, 400), true, false, Some(take_focus));
    t.register_children();
    let (id_1, id_2) = (t.widget_id(left), t.widget_id(right));

    assert_eq!(t.focus(), None);
    assert!(!t.has_focus(left));
    assert!(!t.has_focus(right));

    // sent to all widgets; the first to request focus should get it
    let tr = t.submit_command(take_focus, None);
    assert_eq!(t.focus(), Some(id_1));
    assert!(t.has_focus(left));
    assert!(!t.has_focus(right));
    assert_eq!(
        filter_id(&tr, id_1),
        vec![
            Record::E(EventKind::Command(take_focus)),
            Record::L(LifeCycle::FocusChanged(true))
        ]
    );
    assert_eq!(
        filter_id(&tr, id_2),
        vec![Record::E(EventKind::Command(take_focus))]
    );

    // sent to a specific widget; it should get focus
    let tr = t.submit_command(take_focus, Some(id_2));
    assert_eq!(t.focus(), Some(id_2));
    assert!(!t.has_focus(left));
    assert!(t.has_focus(right));
    assert_eq!(
        filter_id(&tr, id_1),
        vec![Record::L(LifeCycle::FocusChanged(false))]
    );
    assert_eq!(
        filter_id(&tr, id_2),
        vec![
            Record::E(EventKind::Command(take_focus)),
            Record::L(LifeCycle::FocusChanged(true))
        ]
    );
}

/// Every ancestor's membership set reports all attached descendants.
#[test]
fn child_tracking() {
    let mut t = WidgetTree::new();
    let id_4 = t.add_root(rect(0, 0, 400, 400), false, false, None);
    let id_3 = t.add_child(id_4, rect(0, 0, 400, 400), false, false, None);
    let id_1 = t.add_child(id_3, rect(0, 0, 200, 400), false, false, None);
    let id_2 = t.add_child(id_3, rect(200, 0, 200, 400), false, false, None);
    t.register_children();

    assert_eq!(t.children_len(id_4), 3);
    assert!(t.children_contains(id_4, t.widget_id(id_1)));
    assert!(t.children_contains(id_4, t.widget_id(id_2)));
    assert!(t.children_contains(id_4, t.widget_id(id_3)));

    assert!(t.children_contains(id_3, t.widget_id(id_1)));
    assert!(t.children_contains(id_3, t.widget_id(id_2)));
    assert_eq!(t.children_len(id_3), 2);
}

/// Adding a child subtree marks the chain up to the root; registration
/// clears every mark and rebuilds the focus chain in traversal order.
#[test]
fn structural_change_propagation() {
    let mut t = WidgetTree::new();
    let root = t.add_root(rect(0, 0, 400, 400), false, false, None);
    let mid = t.add_child(root, rect(0, 0, 400, 400), false, false, None);
    t.register_children();
    assert!(!t.children_changed(root));
    assert!(!t.children_changed(mid));

    let leaf = t.add_child(mid, rect(0, 0, 100, 100), true, false, None);
    assert!(t.children_changed(leaf));
    assert!(t.children_changed(mid));
    assert!(t.children_changed(root));

    let tr = t.register_children();
    for i in 0..t.len() {
        assert!(!t.children_changed(i));
    }
    // the new leaf got its WidgetAdded exactly once
    assert_eq!(
        filter_id(&tr, t.widget_id(leaf)),
        vec![Record::L(LifeCycle::WidgetAdded)]
    );
    assert_eq!(t.focus_chain().as_slice(), &[t.widget_id(leaf)]);
}

/// A press on a hot, capture-willing node makes it the single active
/// node; release clears it.
#[test]
fn press_activates_hot_node() {
    let mut t = WidgetTree::new();
    let root = t.add_root(rect(0, 0, 400, 400), false, false, None);
    let button = t.add_child(root, rect(50, 50, 100, 100), false, true, None);
    t.register_children();

    t.pointer_move(60, 60);
    assert!(t.is_hot(button));
    t.pointer_down(60, 60);
    assert!(t.is_active(button));
    assert!(!t.is_active(root));

    // while active, the button keeps receiving events outside its bounds
    let tr = t.pointer_move(10, 10);
    assert!(!t.is_hot(button));
    assert!(t.is_active(button));
    assert_eq!(
        filter_id(&tr, t.widget_id(button)),
        vec![
            Record::L(LifeCycle::HotChanged(false)),
            Record::E(EventKind::MouseMoved)
        ]
    );

    t.pointer_up(10, 10);
    assert!(!t.is_active(button));

    // a press over nothing hot activates nothing
    t.pointer_down(500, 500);
    for i in 0..t.len() {
        assert!(!t.is_active(i));
    }
}

/// A command addressed to an identifier that is not attached is
/// silently dropped.
#[test]
fn stale_command_is_dropped() {
    let mut t = WidgetTree::new();
    let root = t.add_root(rect(0, 0, 400, 400), false, false, None);
    t.register_children();
    let tr = t.submit_command(5, Some(99));
    assert!(tr.is_empty());
    assert_eq!(t.focus(), None);
    let _ = root;
}

/// Hotness never holds on a node whose parent is not hot.
#[test]
fn hot_implies_parent_hot() {
    let mut t = WidgetTree::new();
    let root = t.add_root(rect(0, 0, 100, 100), false, false, None);
    let a = t.add_child(root, rect(10, 10, 50, 50), false, false, None);
    let b = t.add_child(a, rect(0, 0, 20, 20), false, false, None);
    t.register_children();
    for (px, py) in [(15i64, 15i64), (5, 5), (95, 95), (-3, 40), (12, 12)] {
        t.pointer_move(px, py);
        if t.is_hot(b) {
            assert!(t.is_hot(a));
        }
        if t.is_hot(a) {
            assert!(t.is_hot(root));
        }
    }
}

/// All children are registered correctly after a child is replaced.
#[test]
fn register_after_adding_child() {
    let mut t = WidgetTree::new();
    let id_5 = t.add_root(rect(0, 0, 400, 400), false, false, None);
    let id_4 = t.add_child(id_5, rect(0, 0, 200, 400), false, false, None);
    let id_6 = t.add_child(id_5, rect(200, 0, 200, 400), false, false, None);
    let id_1 = t.add_child(id_6, rect(0, 0, 200, 400), true, false, None);
    t.register_children();

    assert!(t.children_contains(id_5, t.widget_id(id_6)));
    assert!(t.children_contains(id_5, t.widget_id(id_1)));
    assert!(t.children_contains(id_5, t.widget_id(id_4)));
    assert_eq!(t.children_len(id_5), 3);

    // the replacer swaps its child for a split of two new ones
    t.detach_subtree(id_1);
    let id_7 = t.add_child(id_6, rect(0, 0, 200, 400), false, false, None);
    let id_2 = t.add_child(id_7, rect(0, 0, 100, 400), true, false, None);
    let id_3 = t.add_child(id_7, rect(100, 0, 100, 400), true, false, None);
    t.register_children();

    assert!(t.children_contains(id_5, t.widget_id(id_6)));
    assert!(t.children_contains(id_5, t.widget_id(id_4)));
    assert!(t.children_contains(id_5, t.widget_id(id_7)));
    assert!(t.children_contains(id_5, t.widget_id(id_2)));
    assert!(t.children_contains(id_5, t.widget_id(id_3)));
    assert!(!t.children_contains(id_5, t.widget_id(id_1)));
    assert_eq!(t.children_len(id_5), 5);
}

/// The focus chain holds exactly the focusable attached widgets in
/// traversal order, before and after a replacement.
#[test]
fn participate_in_autofocus() {
    let mut t = WidgetTree::new();
    let root = t.add_root(rect(0, 0, 400, 400), false, false, None);
    let flex = t.add_child(root, rect(0, 0, 200, 400), false, false, None);
    let id_1 = t.add_child(flex, rect(0, 0, 60, 400), true, false, None);
    let id_2 = t.add_child(flex, rect(60, 0, 60, 400), true, false, None);
    let id_3 = t.add_child(flex, rect(120, 0, 60, 400), true, false, None);
    let replacer = t.add_child(root, rect(200, 0, 200, 400), false, false, None);
    let id_4 = t.add_child(replacer, rect(0, 0, 200, 400), true, false, None);

    // every new widget starts with children_changed set
    for i in 0..t.len() {
        assert!(t.children_changed(i));
    }

    t.register_children();
    assert_eq!(
        t.focus_chain().as_slice(),
        &[t.widget_id(id_1), t.widget_id(id_2), t.widget_id(id_3), t.widget_id(id_4)]
    );

    // tell the replacer widget to swap its children
    t.detach_subtree(id_4);
    let split = t.add_child(replacer, rect(0, 0, 200, 400), false, false, None);
    let id_5 = t.add_child(split, rect(0, 0, 100, 400), true, false, None);
    let id_6 = t.add_child(split, rect(100, 0, 100, 400), true, false, None);
    t.register_children();

    assert_eq!(
        t.focus_chain().as_slice(),
        &[
            t.widget_id(id_1),
            t.widget_id(id_2),
            t.widget_id(id_3),
            t.widget_id(id_5),
            t.widget_id(id_6)
        ]
    );
    for i in 0..t.len() {
        assert!(!t.children_changed(i));
    }
}

/// Lifecycle events reach a child added during event handling exactly
/// once, at the next registration pass.
#[test]
fn adding_child_lifecycle() {
    let replace_child: u64 = 9;
    let mut t = WidgetTree::new();
    let root = t.add_root(rect(0, 0, 400, 400), false, false, None);
    let label = t.add_child(root, rect(0, 0, 200, 400), false, false, None);
    let replacer = t.add_child(root, rect(200, 0, 200, 400), false, false, None);
    let old_child = t.add_child(replacer, rect(0, 0, 200, 400), false, false, None);

    let tr = t.register_children();
    assert_eq!(
        filter_id(&tr, t.widget_id(label)),
        vec![Record::L(LifeCycle::WidgetAdded)]
    );

    let tr = t.submit_command(replace_child, None);
    assert_eq!(
        filter_id(&tr, t.widget_id(label)),
        vec![Record::E(EventKind::Command(replace_child))]
    );

    // the replacer reacts by swapping its child for a split of two
    t.detach_subtree(old_child);
    let split = t.add_child(replacer, rect(0, 0, 200, 400), false, false, None);
    let new_child = t.add_child(split, rect(0, 0, 100, 400), false, false, None);
    let tr = t.register_children();

    assert_eq!(
        filter_id(&tr, t.widget_id(new_child)),
        vec![Record::L(LifeCycle::WidgetAdded)]
    );
    assert!(filter_id(&tr, t.widget_id(label)).is_empty());
}
