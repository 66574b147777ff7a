use widget_core::mouse::{Cursor, MouseButton, MouseButtons};

#[test]
fn button_predicates() {
    assert!(MouseButton::Left.is_left());
    assert!(MouseButton::Right.is_right());
    assert!(MouseButton::Middle.is_middle());
    assert!(MouseButton::X1.is_x1());
    assert!(MouseButton::X2.is_x2());
    assert!(MouseButton::Other.is_other());
    assert!(!MouseButton::Left.is_right());
}

#[test]
fn button_set_operations() {
    let mut set = MouseButtons::new();
    assert!(set.has_none());
    assert!(!set.has_any());
    set.add(MouseButton::Left);
    assert!(set.has_left());
    assert!(set.has(MouseButton::Left));
    assert!(set.has_any());
    set.add(MouseButton::Right);
    assert!(set.has_right());
    set.remove(MouseButton::Left);
    assert!(!set.has_left());
    assert!(set.has_right());
    set.clear();
    assert!(set.has_none());
}

#[test]
fn button_set_builders_and_union() {
    let a = MouseButtons::new()
        .with(MouseButton::Left)
        .with(MouseButton::Middle);
    let b = MouseButtons::new().with(MouseButton::X1);
    let c = a.with_other(b);
    assert!(c.has_left());
    assert!(c.has_middle());
    assert!(c.has_x1());
    assert!(!c.has_x2());
    assert!(!c.has_other());
    let d = c.without(MouseButton::Middle);
    assert!(!d.has_middle());
    assert!(d.has_left());
    let _ = Cursor::Arrow;
}
