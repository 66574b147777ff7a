use widget_core::geom::{BoxConstraints, WidgetRect, WidgetSize};

#[test]
fn constrain_clamps_componentwise() {
    let bc = BoxConstraints::new(10, 20, 100, 200);
    let s = bc.constrain(&WidgetSize { width: 5, height: 300 });
    assert_eq!(s, WidgetSize { width: 10, height: 200 });
    assert!(bc.is_satisfied_by(&s));
    let s2 = bc.constrain(&WidgetSize { width: 50, height: 60 });
    assert_eq!(s2, WidgetSize { width: 50, height: 60 });
    assert!(!bc.is_satisfied_by(&WidgetSize { width: 5, height: 60 }));
}

#[test]
fn rect_contains_points() {
    let r = WidgetRect::new(10, 10, 30, 30);
    assert!(r.contains(10, 10));
    assert!(r.contains(39, 39));
    assert!(!r.contains(40, 10));
    assert!(!r.contains(9, 10));
}
