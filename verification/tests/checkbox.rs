use widget_core::checkbox::{Checkbox, Env, WidgetCtx};
use widget_core::event::{Event, LifeCycle};
use widget_core::geom::{BoxConstraints, WidgetSize};
use widget_core::mouse::{ClickEvent, KeyModifiers, MouseButton, MouseButtons, Point};

fn click(x: i64, y: i64) -> ClickEvent {
    ClickEvent {
        pos: Point { x, y },
        buttons: MouseButtons::new().with(MouseButton::Left),
        mods: KeyModifiers::default(),
        count: 1,
        button: MouseButton::Left,
    }
}

#[test]
fn checkbox_toggles_on_release_while_hot() {
    let cb = Checkbox::new(String::from("agree"));
    let mut ctx = WidgetCtx::new(true, false);
    let mut data = false;

    cb.event(&mut ctx, &Event::MouseDown(click(5, 5)), &mut data);
    assert!(ctx.active);
    assert!(ctx.paint_requested);
    assert!(!data);

    cb.event(&mut ctx, &Event::MouseUp(click(5, 5)), &mut data);
    assert!(!ctx.active);
    assert!(data);

    // a second press-release cycle toggles back
    cb.event(&mut ctx, &Event::MouseDown(click(5, 5)), &mut data);
    cb.event(&mut ctx, &Event::MouseUp(click(5, 5)), &mut data);
    assert!(!data);
}

#[test]
fn checkbox_release_outside_does_not_toggle() {
    let cb = Checkbox::new(String::from("agree"));
    let mut ctx = WidgetCtx::new(false, false);
    let mut data = false;

    cb.event(&mut ctx, &Event::MouseDown(click(5, 5)), &mut data);
    assert!(ctx.active);
    // the pointer left the box before the release
    ctx.hot = false;
    cb.event(&mut ctx, &Event::MouseUp(click(300, 300)), &mut data);
    assert!(!ctx.active);
    assert!(!data);

    // a release without a preceding press is ignored entirely
    let mut ctx2 = WidgetCtx::new(true, false);
    cb.event(&mut ctx2, &Event::MouseUp(click(5, 5)), &mut data);
    assert!(!data);
    assert!(!ctx2.paint_requested);
}

#[test]
fn checkbox_repaints_on_hot_change() {
    let cb = Checkbox::new(String::from("agree"));
    let mut ctx = WidgetCtx::new(false, false);
    cb.lifecycle(&mut ctx, &LifeCycle::FocusChanged(true));
    assert!(!ctx.paint_requested);
    cb.lifecycle(&mut ctx, &LifeCycle::HotChanged(true));
    assert!(ctx.paint_requested);
}

#[test]
fn checkbox_layout_places_label_beside_box() {
    let cb = Checkbox::new(String::from("agree"));
    let bc = BoxConstraints::new(0, 0, 400, 400);
    let env = Env { basic_widget_height: 24 };
    let label = WidgetSize { width: 60, height: 16 };
    let size = cb.layout(&bc, label, &env);
    // box height 24, padding 8, label width 60
    assert_eq!(size, WidgetSize { width: 92, height: 24 });

    // a tight parent clamps the answer
    let tight = BoxConstraints::new(0, 0, 50, 20);
    let size2 = cb.layout(&tight, label, &env);
    assert_eq!(size2, WidgetSize { width: 50, height: 20 });
}
