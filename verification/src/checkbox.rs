//! A checkbox widget: the example implementer of the widget callbacks,
//! with its reaction to input and lifecycle events stated exactly.

use vstd::prelude::*;
use crate::event::{Event, LifeCycle};
use crate::geom::{BoxConstraints, WidgetSize, COORD_LIMIT};

verus! {

/// The slice of per-dispatch context a widget sees: its own derived
/// state, and the effects it may request back.
#[derive(Clone, Copy, PartialEq, Eq, Structural, Debug)]
pub struct WidgetCtx {
    /// The widget holds active capture.
    pub active: bool,
    /// The pointer is over the widget.
    pub hot: bool,
    /// The widget asked to be repainted.
    pub paint_requested: bool,
}

impl WidgetCtx {
    /// A context for a widget that is neither hot nor active.
    pub fn new(hot: bool, active: bool) -> (r: WidgetCtx)
        ensures
            r == (WidgetCtx { active, hot, paint_requested: false }),
    {
        WidgetCtx { active, hot, paint_requested: false }
    }

    /// Request or release active capture.
    pub fn set_active(&mut self, active: bool)
        ensures
            *final(self) == (WidgetCtx { active, ..*old(self) }),
    {
        self.active = active;
    }

    /// Ask the shell for a repaint.
    pub fn request_paint(&mut self)
        ensures
            *final(self) == (WidgetCtx { paint_requested: true, ..*old(self) }),
    {
        self.paint_requested = true;
    }
}

/// The key-value environment a dispatch pass carries, reduced to the
/// entries the checkbox reads.
#[derive(Clone, Copy, PartialEq, Eq, Structural, Debug)]
pub struct Env {
    /// The height of a basic widget, in integer pixels.
    pub basic_widget_height: i64,
}

impl Env {
    /// The entry is non-negative and bounded.
    pub open spec fn wf(self) -> bool {
        0 <= self.basic_widget_height <= COORD_LIMIT
    }
}

/// The checkbox's data after it handles `ev`: a release while the
/// checkbox holds capture and is hot toggles the value; nothing else
/// touches it.
pub open spec fn event_data_after(ev: Event, ctx: WidgetCtx, data: bool) -> bool {
    match ev {
        Event::MouseUp(_) => if ctx.active && ctx.hot {
            !data
        } else {
            data
        },
        _ => data,
    }
}

/// The checkbox's context after it handles `ev`: a press takes capture
/// and requests paint; a release while captured drops capture and
/// requests paint; everything else is ignored.
pub open spec fn event_ctx_after(ev: Event, ctx: WidgetCtx) -> WidgetCtx {
    match ev {
        Event::MouseDown(_) => WidgetCtx { active: true, paint_requested: true, ..ctx },
        Event::MouseUp(_) => if ctx.active {
            WidgetCtx { active: false, paint_requested: true, ..ctx }
        } else {
            ctx
        },
        _ => ctx,
    }
}

/// The checkbox's context after a lifecycle notification: a hotness
/// change requests paint, all else is ignored.
pub open spec fn lifecycle_ctx_after(lc: LifeCycle, ctx: WidgetCtx) -> WidgetCtx {
    match lc {
        LifeCycle::HotChanged(_) => WidgetCtx { paint_requested: true, ..ctx },
        _ => ctx,
    }
}

/// The size the checkbox answers layout with: the box glyph plus the
/// label beside it, clamped into the parent's constraints.
pub open spec fn layout_size_spec(bc: BoxConstraints, label_size: WidgetSize, env: Env) -> (
    WidgetSize) {
    let offset = env.basic_widget_height + CHECKBOX_PADDING;
    let wanted = WidgetSize {
        width: (offset + label_size.width) as i64,
        height: if env.basic_widget_height > label_size.height {
            env.basic_widget_height
        } else {
            label_size.height
        },
    };
    WidgetSize {
        width: if wanted.width < bc.min_width {
            bc.min_width
        } else if wanted.width > bc.max_width {
            bc.max_width
        } else {
            wanted.width
        },
        height: if wanted.height < bc.min_height {
            bc.min_height
        } else if wanted.height > bc.max_height {
            bc.max_height
        } else {
            wanted.height
        },
    }
}

/// Horizontal padding between the checkbox glyph and its label.
pub const CHECKBOX_PADDING: i64 = 8;

/// A checkbox that toggles a `bool`.
pub struct Checkbox {
    label: String,
}

impl Checkbox {
    /// The label text beside the box.
    pub closed spec fn label_spec(self) -> Seq<char> {
        self.label@
    }

    /// Create a new `Checkbox` with a label.
    pub fn new(label: String) -> (r: Checkbox)
        ensures
            r.label_spec() == label@,
    {
        Checkbox { label }
    }

    /// React to input: a press takes capture; a release while captured
    /// drops it and, if the pointer is still over the box, toggles the
    /// data.
    pub fn event(&self, ctx: &mut WidgetCtx, event: &Event, data: &mut bool)
        ensures
            *final(data) == event_data_after(*event, *old(ctx), *old(data)),
            *final(ctx) == event_ctx_after(*event, *old(ctx)),
    {
        match event {
            Event::MouseDown(_) => {
                ctx.set_active(true);
                ctx.request_paint();
            },
            Event::MouseUp(_) => {
                if ctx.active {
                    ctx.set_active(false);
                    if ctx.hot {
                        if *data {
                            *data = false;
                        } else {
                            *data = true;
                        }
                    }
                    ctx.request_paint();
                }
            },
            _ => {},
        }
    }

    /// React to lifecycle notifications: repaint when hotness changes.
    pub fn lifecycle(&self, ctx: &mut WidgetCtx, event: &LifeCycle)
        ensures
            *final(ctx) == lifecycle_ctx_after(*event, *old(ctx)),
    {
        match event {
            LifeCycle::HotChanged(_) => {
                ctx.request_paint();
            },
            _ => {},
        }
    }

    /// Negotiate size: the box glyph, the padding, and the label laid
    /// out beside it, constrained by the parent.
    pub fn layout(&self, bc: &BoxConstraints, label_size: WidgetSize, env: &Env) -> (r:
        WidgetSize)
        requires
            bc.wf(),
            label_size.wf(),
            env.wf(),
        ensures
            r == layout_size_spec(*bc, label_size, *env),
            bc.satisfied_by_spec(r),
    {
        let offset = env.basic_widget_height + CHECKBOX_PADDING;
        let wanted = WidgetSize {
            width: offset + label_size.width,
            height: if env.basic_widget_height > label_size.height {
                env.basic_widget_height
            } else {
                label_size.height
            },
        };
        bc.constrain(&wanted)
    }
}

} // verus!
