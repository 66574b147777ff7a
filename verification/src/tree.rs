//! The widget tree and its event/lifecycle dispatch engine.
//!
//! Nodes live in an arena in traversal (pre-order) position: a parent's
//! index is always smaller than its children's, and a node's identifier is
//! its arena index, assigned at attachment and never reused. Each node
//! carries the derived state the engine maintains for it: hotness, active
//! capture, focus, structural-change and dirty flags, and the membership
//! set of its descendants.

use vstd::prelude::*;
use crate::event::{EventKind, LifeCycle, Record, TraceRecord};
use crate::fastset::FastSet;
use crate::geom::WidgetRect;

verus! {

/// The state of one widget as the contracts speak of it.
pub struct NodeView {
    /// The widget's identifier: its arena index.
    pub id: u64,
    /// The parent's arena index; `None` for the root.
    pub parent: Option<usize>,
    /// Bounds assigned by the parent, relative to the parent's origin.
    pub rect: WidgetRect,
    /// Whether the node is part of the tree; detached nodes keep their
    /// slot (identifiers are never reused) but take no further part.
    pub attached: bool,
    /// Whether the node has received its `WidgetAdded` notification.
    pub added: bool,
    /// The pointer is inside this node's bounds and its ancestors'.
    pub is_hot: bool,
    /// The node has captured the pointer interaction.
    pub is_active: bool,
    /// The node is the unique focus target.
    pub has_focus: bool,
    /// The node's child set changed since the last registration pass.
    pub children_changed: bool,
    /// The node asked for a new layout pass.
    pub needs_layout: bool,
    /// The node asked to be repainted.
    pub needs_paint: bool,
    /// The node takes part in keyboard focus.
    pub is_focusable: bool,
    /// The node captures the pointer on a press while hot.
    pub grabs_pointer: bool,
    /// The node requests focus when it sees a command with this selector.
    pub takes_focus_on: Option<u64>,
    /// Identifiers of all attached descendants, as of the last
    /// registration pass.
    pub children: Set<u64>,
}

struct Node {
    parent: Option<usize>,
    rect: WidgetRect,
    attached: bool,
    added: bool,
    is_hot: bool,
    is_active: bool,
    has_focus: bool,
    children_changed: bool,
    needs_layout: bool,
    needs_paint: bool,
    is_focusable: bool,
    grabs_pointer: bool,
    takes_focus_on: Option<u64>,
    children: FastSet,
}

impl Node {
    spec fn nv(self, i: int) -> NodeView {
        NodeView {
            id: i as u64,
            parent: self.parent,
            rect: self.rect,
            attached: self.attached,
            added: self.added,
            is_hot: self.is_hot,
            is_active: self.is_active,
            has_focus: self.has_focus,
            children_changed: self.children_changed,
            needs_layout: self.needs_layout,
            needs_paint: self.needs_paint,
            is_focusable: self.is_focusable,
            grabs_pointer: self.grabs_pointer,
            takes_focus_on: self.takes_focus_on,
            children: self.children@,
        }
    }
}

/// Whether node `a` is a proper ancestor of node `d`, following parent
/// links.
pub open spec fn is_ancestor(v: Seq<NodeView>, a: int, d: int) -> bool
    decreases d,
{
    if 0 <= d < v.len() {
        match v[d].parent {
            Some(p) => p < d && (a == p as int || is_ancestor(v, a, p as int)),
            None => false,
        }
    } else {
        false
    }
}

/// Whether node `a` is `d` itself or a proper ancestor of it.
pub open spec fn anc_or_self(v: Seq<NodeView>, a: int, d: int) -> bool {
    a == d || is_ancestor(v, a, d)
}

/// The structural and state invariants every reachable tree obeys:
/// parents precede their children; the root has no parent; rects are
/// bounded; a hot node's parent is hot; at most one node is active;
/// detached nodes are quiescent; an attached node's parent is attached;
/// the root is attached; and a node has focus exactly when it is the
/// recorded focus holder.
pub open spec fn wf_view(v: Seq<NodeView>, focus: Option<u64>) -> bool {
    &&& forall|i: int|
        0 <= i < v.len() ==> (#[trigger] v[i].id) == i as u64
    &&& forall|i: int|
        0 < i < v.len() ==> (#[trigger] v[i].parent) is Some && v[i].parent.unwrap() < i
    &&& v.len() > 0 ==> v[0].parent is None
    &&& forall|i: int| 0 <= i < v.len() ==> (#[trigger] v[i].rect).wf()
    &&& forall|i: int|
        0 < i < v.len() && (#[trigger] v[i].is_hot) ==> v[v[i].parent.unwrap() as int].is_hot
    &&& forall|i: int, j: int|
        0 <= i < v.len() && 0 <= j < v.len() && (#[trigger] v[i].is_active) && (
        #[trigger] v[j].is_active) ==> i == j
    &&& forall|i: int|
        0 <= i < v.len() && !(#[trigger] v[i].attached) ==> !v[i].is_hot && !v[i].is_active
            && !v[i].has_focus
    &&& forall|i: int|
        0 < i < v.len() && (#[trigger] v[i].attached) ==> v[v[i].parent.unwrap() as int].attached
    &&& v.len() > 0 ==> v[0].attached
    &&& forall|i: int|
        0 <= i < v.len() && (#[trigger] v[i].has_focus) ==> focus == Some(v[i].id)
    &&& match focus {
        Some(fid) => fid < v.len() && v[fid as int].attached && v[fid as int].has_focus,
        None => true,
    }
}

/// The widget tree: the arena of nodes, the process-wide focus holder,
/// and the focus chain rebuilt by each registration pass.
pub struct WidgetTree {
    nodes: Vec<Node>,
    focus: Option<u64>,
    focus_chain: Vec<u64>,
}

impl View for WidgetTree {
    type V = Seq<NodeView>;

    closed spec fn view(&self) -> Seq<NodeView> {
        self.nodes@.map(|i: int, n: Node| n.nv(i))
    }
}

impl WidgetTree {
    /// The identifier of the current focus holder, if any.
    pub closed spec fn focus_spec(self) -> Option<u64> {
        self.focus
    }

    /// The focus chain as of the last registration pass.
    pub closed spec fn chain_spec(self) -> Seq<u64> {
        self.focus_chain@
    }

    /// The tree's invariants; see [`wf_view`].
    pub open spec fn wf(self) -> bool {
        wf_view(self@, self.focus_spec())
    }

    /// Create an empty tree.
    pub fn new() -> (r: WidgetTree)
        ensures
            r.wf(),
            r@.len() == 0,
            r.focus_spec() is None,
            r.chain_spec() == Seq::<u64>::empty(),
    {
        let r = WidgetTree { nodes: Vec::new(), focus: None, focus_chain: Vec::new() };
        proof {
            assert(r@ =~= Seq::<NodeView>::empty());
        }
        r
    }

    /// The number of arena slots, attached or not.
    pub fn len(&self) -> (r: usize)
        ensures
            r == self@.len(),
    {
        self.nodes.len()
    }

    /// The identifier of the node in slot `idx`.
    pub fn widget_id(&self, idx: usize) -> (r: u64)
        requires
            self.wf(),
            idx < self@.len(),
        ensures
            r == self@[idx as int].id,
    {
        idx as u64
    }

    /// The parent slot of the node in slot `idx`.
    pub fn parent_of(&self, idx: usize) -> (r: Option<usize>)
        requires
            idx < self@.len(),
        ensures
            r == self@[idx as int].parent,
    {
        self.nodes[idx].parent
    }
}

impl WidgetTree {
    /// Overwrite one state flag of slot `i`, leaving everything else as
    /// it was.
    fn set_cc_at(&mut self, i: usize, b: bool)
        requires
            i < old(self)@.len(),
        ensures
            final(self)@ == old(self)@.update(
                i as int,
                NodeView { children_changed: b, ..old(self)@[i as int] },
            ),
            final(self).focus_spec() == old(self).focus_spec(),
            final(self).chain_spec() == old(self).chain_spec(),
    {
        self.nodes[i].children_changed = b;
        proof {
            let target = old(self)@.update(
                i as int,
                NodeView { children_changed: b, ..old(self)@[i as int] },
            );
            assert forall|k: int| 0 <= k < self@.len() implies self@[k] == target[k] by {
                if k != i {
                    assert(self.nodes@[k] == old(self).nodes@[k]);
                }
            }
            assert(self@ =~= target);
        }
    }

    fn set_is_hot_at(&mut self, i: usize, b: bool)
        requires
            i < old(self)@.len(),
        ensures
            final(self)@ == old(self)@.update(
                i as int,
                NodeView { is_hot: b, ..old(self)@[i as int] },
            ),
            final(self).focus_spec() == old(self).focus_spec(),
            final(self).chain_spec() == old(self).chain_spec(),
    {
        self.nodes[i].is_hot = b;
        proof {
            let target = old(self)@.update(
                i as int,
                NodeView { is_hot: b, ..old(self)@[i as int] },
            );
            assert forall|k: int| 0 <= k < self@.len() implies self@[k] == target[k] by {
                if k != i {
                    assert(self.nodes@[k] == old(self).nodes@[k]);
                }
            }
            assert(self@ =~= target);
        }
    }

    fn set_is_active_at(&mut self, i: usize, b: bool)
        requires
            i < old(self)@.len(),
        ensures
            final(self)@ == old(self)@.update(
                i as int,
                NodeView { is_active: b, ..old(self)@[i as int] },
            ),
            final(self).focus_spec() == old(self).focus_spec(),
            final(self).chain_spec() == old(self).chain_spec(),
    {
        self.nodes[i].is_active = b;
        proof {
            let target = old(self)@.update(
                i as int,
                NodeView { is_active: b, ..old(self)@[i as int] },
            );
            assert forall|k: int| 0 <= k < self@.len() implies self@[k] == target[k] by {
                if k != i {
                    assert(self.nodes@[k] == old(self).nodes@[k]);
                }
            }
            assert(self@ =~= target);
        }
    }

    fn set_has_focus_at(&mut self, i: usize, b: bool)
        requires
            i < old(self)@.len(),
        ensures
            final(self)@ == old(self)@.update(
                i as int,
                NodeView { has_focus: b, ..old(self)@[i as int] },
            ),
            final(self).focus_spec() == old(self).focus_spec(),
            final(self).chain_spec() == old(self).chain_spec(),
    {
        self.nodes[i].has_focus = b;
        proof {
            let target = old(self)@.update(
                i as int,
                NodeView { has_focus: b, ..old(self)@[i as int] },
            );
            assert forall|k: int| 0 <= k < self@.len() implies self@[k] == target[k] by {
                if k != i {
                    assert(self.nodes@[k] == old(self).nodes@[k]);
                }
            }
            assert(self@ =~= target);
        }
    }

    fn set_added_at(&mut self, i: usize, b: bool)
        requires
            i < old(self)@.len(),
        ensures
            final(self)@ == old(self)@.update(
                i as int,
                NodeView { added: b, ..old(self)@[i as int] },
            ),
            final(self).focus_spec() == old(self).focus_spec(),
            final(self).chain_spec() == old(self).chain_spec(),
    {
        self.nodes[i].added = b;
        proof {
            let target = old(self)@.update(
                i as int,
                NodeView { added: b, ..old(self)@[i as int] },
            );
            assert forall|k: int| 0 <= k < self@.len() implies self@[k] == target[k] by {
                if k != i {
                    assert(self.nodes@[k] == old(self).nodes@[k]);
                }
            }
            assert(self@ =~= target);
        }
    }

    fn set_attached_at(&mut self, i: usize, b: bool)
        requires
            i < old(self)@.len(),
        ensures
            final(self)@ == old(self)@.update(
                i as int,
                NodeView { attached: b, ..old(self)@[i as int] },
            ),
            final(self).focus_spec() == old(self).focus_spec(),
            final(self).chain_spec() == old(self).chain_spec(),
    {
        self.nodes[i].attached = b;
        proof {
            let target = old(self)@.update(
                i as int,
                NodeView { attached: b, ..old(self)@[i as int] },
            );
            assert forall|k: int| 0 <= k < self@.len() implies self@[k] == target[k] by {
                if k != i {
                    assert(self.nodes@[k] == old(self).nodes@[k]);
                }
            }
            assert(self@ =~= target);
        }
    }

    fn set_needs_layout_at(&mut self, i: usize, b: bool)
        requires
            i < old(self)@.len(),
        ensures
            final(self)@ == old(self)@.update(
                i as int,
                NodeView { needs_layout: b, ..old(self)@[i as int] },
            ),
            final(self).focus_spec() == old(self).focus_spec(),
            final(self).chain_spec() == old(self).chain_spec(),
    {
        self.nodes[i].needs_layout = b;
        proof {
            let target = old(self)@.update(
                i as int,
                NodeView { needs_layout: b, ..old(self)@[i as int] },
            );
            assert forall|k: int| 0 <= k < self@.len() implies self@[k] == target[k] by {
                if k != i {
                    assert(self.nodes@[k] == old(self).nodes@[k]);
                }
            }
            assert(self@ =~= target);
        }
    }

    fn set_needs_paint_at(&mut self, i: usize, b: bool)
        requires
            i < old(self)@.len(),
        ensures
            final(self)@ == old(self)@.update(
                i as int,
                NodeView { needs_paint: b, ..old(self)@[i as int] },
            ),
            final(self).focus_spec() == old(self).focus_spec(),
            final(self).chain_spec() == old(self).chain_spec(),
    {
        self.nodes[i].needs_paint = b;
        proof {
            let target = old(self)@.update(
                i as int,
                NodeView { needs_paint: b, ..old(self)@[i as int] },
            );
            assert forall|k: int| 0 <= k < self@.len() implies self@[k] == target[k] by {
                if k != i {
                    assert(self.nodes@[k] == old(self).nodes@[k]);
                }
            }
            assert(self@ =~= target);
        }
    }

    fn set_rect_at(&mut self, i: usize, b: WidgetRect)
        requires
            i < old(self)@.len(),
        ensures
            final(self)@ == old(self)@.update(
                i as int,
                NodeView { rect: b, ..old(self)@[i as int] },
            ),
            final(self).focus_spec() == old(self).focus_spec(),
            final(self).chain_spec() == old(self).chain_spec(),
    {
        self.nodes[i].rect = b;
        proof {
            let target = old(self)@.update(
                i as int,
                NodeView { rect: b, ..old(self)@[i as int] },
            );
            assert forall|k: int| 0 <= k < self@.len() implies self@[k] == target[k] by {
                if k != i {
                    assert(self.nodes@[k] == old(self).nodes@[k]);
                }
            }
            assert(self@ =~= target);
        }
    }

    fn set_children_at(&mut self, i: usize, b: FastSet)
        requires
            i < old(self)@.len(),
        ensures
            final(self)@ == old(self)@.update(
                i as int,
                NodeView { children: b@, ..old(self)@[i as int] },
            ),
            final(self).focus_spec() == old(self).focus_spec(),
            final(self).chain_spec() == old(self).chain_spec(),
    {
        self.nodes[i].children = b;
        proof {
            let target = old(self)@.update(
                i as int,
                NodeView { children: b@, ..old(self)@[i as int] },
            );
            assert forall|k: int| 0 <= k < self@.len() implies self@[k] == target[k] by {
                if k != i {
                    assert(self.nodes@[k] == old(self).nodes@[k]);
                }
            }
            assert(self@ =~= target);
        }
    }
}

/// If `a` is an ancestor of `b` and `b` of `d`, then `a` is an ancestor
/// of `d`.
pub proof fn lemma_ancestor_trans(v: Seq<NodeView>, a: int, b: int, d: int)
    requires
        is_ancestor(v, a, b),
        is_ancestor(v, b, d),
    ensures
        is_ancestor(v, a, d),
    decreases d,
{
    let p = v[d].parent.unwrap() as int;
    if b == p {
    } else {
        lemma_ancestor_trans(v, a, b, p);
    }
}

/// An ancestor of `b` is an ancestor of anything `b` is an ancestor of
/// or equal to.
pub proof fn lemma_ancestor_trans_or_self(v: Seq<NodeView>, a: int, b: int, d: int)
    requires
        is_ancestor(v, a, b),
        anc_or_self(v, b, d),
    ensures
        is_ancestor(v, a, d),
{
    if b != d {
        lemma_ancestor_trans(v, a, b, d);
    }
}


/// A proper ancestor has a smaller arena index than its descendant.
pub proof fn lemma_ancestor_lt(v: Seq<NodeView>, a: int, d: int)
    requires
        is_ancestor(v, a, d),
    ensures
        a < d,
    decreases d,
{
    let p = v[d].parent.unwrap() as int;
    if a == p {
    } else {
        lemma_ancestor_lt(v, a, p);
    }
}

/// Ancestry depends only on the prefix of the arena up to the node, so
/// appending new slots does not change it.
pub proof fn lemma_anc_prefix(v: Seq<NodeView>, w: Seq<NodeView>, a: int, d: int)
    requires
        0 <= d < v.len(),
        v.len() <= w.len(),
        forall|k: int| 0 <= k < v.len() ==> v[k] == w[k],
    ensures
        is_ancestor(v, a, d) == is_ancestor(w, a, d),
    decreases d,
{
    match v[d].parent {
        Some(p) => {
            if p < d {
                lemma_anc_prefix(v, w, a, p as int);
            }
        },
        None => {},
    }
}

/// Ancestry depends only on parent links, so passes that change other
/// state do not change it.
pub proof fn lemma_anc_same_parents(v: Seq<NodeView>, w: Seq<NodeView>, a: int, d: int)
    requires
        v.len() == w.len(),
        forall|k: int| 0 <= k < v.len() ==> (#[trigger] w[k].parent) == v[k].parent,
    ensures
        is_ancestor(v, a, d) == is_ancestor(w, a, d),
    decreases d,
{
    if 0 <= d < v.len() {
        match v[d].parent {
            Some(p) => {
                if p < d {
                    lemma_anc_same_parents(v, w, a, p as int);
                }
            },
            None => {},
        }
    }
}

/// The fields [`wf_view`] inspects.
pub open spec fn same_core(a: NodeView, b: NodeView) -> bool {
    &&& b.id == a.id
    &&& b.parent == a.parent
    &&& b.rect == a.rect
    &&& b.attached == a.attached
    &&& b.is_hot == a.is_hot
    &&& b.is_active == a.is_active
    &&& b.has_focus == a.has_focus
}

/// A pass that changes none of the fields [`wf_view`] inspects
/// preserves it.
pub proof fn lemma_wf_same_core(v: Seq<NodeView>, w: Seq<NodeView>, focus: Option<u64>)
    requires
        wf_view(v, focus),
        w.len() == v.len(),
        forall|i: int| 0 <= i < v.len() ==> same_core(v[i], #[trigger] w[i]),
    ensures
        wf_view(w, focus),
{
}

impl WidgetTree {
    /// Set `children_changed` on `idx` and on every ancestor of it: a
    /// structural change below `idx` must be seen by the whole chain up
    /// to the root before the next registration pass.
    fn mark_chain(&mut self, idx: usize)
        requires
            old(self).wf(),
            idx < old(self)@.len(),
        ensures
            final(self).wf(),
            final(self)@.len() == old(self)@.len(),
            forall|i: int|
                0 <= i < old(self)@.len() ==> #[trigger] final(self)@[i] == (NodeView {
                    children_changed: old(self)@[i].children_changed || anc_or_self(
                        old(self)@,
                        i,
                        idx as int,
                    ),
                    ..old(self)@[i]
                }),
            final(self).focus_spec() == old(self).focus_spec(),
            final(self).chain_spec() == old(self).chain_spec(),
    {
        let ghost pre = self@;
        let mut cur_opt: Option<usize> = Some(idx);
        let ghost visited = Set::<int>::empty();
        while cur_opt.is_some()
            invariant
                wf_view(pre, old(self).focus_spec()),
                pre == old(self)@,
                self@.len() == pre.len(),
                idx < pre.len(),
                forall|i: int|
                    0 <= i < pre.len() ==> #[trigger] self@[i] == (NodeView {
                        children_changed: pre[i].children_changed || visited.contains(i),
                        ..pre[i]
                    }),
                forall|i: int| #[trigger] visited.contains(i) ==> anc_or_self(pre, i, idx as int),
                match cur_opt {
                    Some(c) => c < pre.len() && anc_or_self(pre, c as int, idx as int) && (forall|
                        i: int,
                    |
                        anc_or_self(pre, i, idx as int) <==> visited.contains(i) || anc_or_self(
                            pre,
                            i,
                            c as int,
                        )),
                    None => forall|i: int|
                        anc_or_self(pre, i, idx as int) <==> visited.contains(i),
                },
                self.focus_spec() == old(self).focus_spec(),
                self.chain_spec() == old(self).chain_spec(),
            decreases (match cur_opt {
                Some(c) => c + 1int,
                None => 0int,
            }),
        {
            let cur = cur_opt.unwrap();
            let ghost before = self@;
            let ghost vis_before = visited;
            self.set_cc_at(cur, true);
            proof {
                visited = visited.insert(cur as int);
                assert forall|i: int|
                    0 <= i < pre.len() implies #[trigger] self@[i] == (NodeView {
                        children_changed: pre[i].children_changed || visited.contains(i),
                        ..pre[i]
                    }) by {
                    if i == cur as int {
                        assert(self@[i] == NodeView { children_changed: true, ..before[i] });
                    } else {
                        assert(self@[i] == before[i]);
                    }
                }
            }
            let parent = self.parent_of(cur);
            proof {
                assert(self@[cur as int] == (NodeView {
                    children_changed: pre[cur as int].children_changed || visited.contains(
                        cur as int,
                    ),
                    ..pre[cur as int]
                }));
                assert(parent == pre[cur as int].parent);
                match parent {
                    Some(p) => {
                        assert(is_ancestor(pre, p as int, cur as int));
                        if cur as int != idx as int {
                            lemma_ancestor_trans(pre, p as int, cur as int, idx as int);
                        }
                        assert forall|i: int|
                            anc_or_self(pre, i, idx as int) implies visited.contains(i)
                            || anc_or_self(pre, i, p as int) by {
                            if !visited.contains(i) {
                                assert(anc_or_self(pre, i, cur as int));
                                assert(is_ancestor(pre, i, cur as int));
                            }
                        }
                        assert forall|i: int|
                            visited.contains(i) || anc_or_self(
                                pre,
                                i,
                                p as int,
                            ) implies anc_or_self(pre, i, idx as int) by {
                            if !visited.contains(i) {
                                if i != p as int {
                                    lemma_ancestor_trans(pre, i, p as int, cur as int);
                                }
                                assert(is_ancestor(pre, i, cur as int));
                                if cur as int != idx as int {
                                    lemma_ancestor_trans(pre, i, cur as int, idx as int);
                                }
                            }
                        }
                    },
                    None => {
                        assert forall|i: int|
                            anc_or_self(pre, i, idx as int) implies visited.contains(i) by {
                            if !visited.contains(i) {
                                assert(anc_or_self(pre, i, cur as int));
                                assert(is_ancestor(pre, i, cur as int));
                            }
                        }
                    },
                }
            }
            cur_opt = parent;
        }
        proof {
            assert forall|i: int|
                0 <= i < pre.len() implies same_core(pre[i], #[trigger] self@[i]) by {}
            lemma_wf_same_core(pre, self@, old(self).focus_spec());
        }
    }

    /// Attach the root widget to an empty tree and return its slot.
    pub fn add_root(
        &mut self,
        rect: WidgetRect,
        is_focusable: bool,
        grabs_pointer: bool,
        takes_focus_on: Option<u64>,
    ) -> (idx: usize)
        requires
            old(self).wf(),
            old(self)@.len() == 0,
            rect.wf(),
        ensures
            final(self).wf(),
            idx == 0,
            final(self)@.len() == 1,
            final(self)@[0] == (NodeView {
                id: 0,
                parent: None,
                rect,
                attached: true,
                added: false,
                is_hot: false,
                is_active: false,
                has_focus: false,
                children_changed: true,
                needs_layout: false,
                needs_paint: false,
                is_focusable,
                grabs_pointer,
                takes_focus_on,
                children: Set::<u64>::empty(),
            }),
            final(self).focus_spec() == old(self).focus_spec(),
            final(self).chain_spec() == old(self).chain_spec(),
    {
        let node = Node {
            parent: None,
            rect,
            attached: true,
            added: false,
            is_hot: false,
            is_active: false,
            has_focus: false,
            children_changed: true,
            needs_layout: false,
            needs_paint: false,
            is_focusable,
            grabs_pointer,
            takes_focus_on,
            children: FastSet::new(),
        };
        self.nodes.push(node);
        0
    }

    /// Attach a new child of the node in slot `parent_idx` and return
    /// its slot. The structural change marks `children_changed` on the
    /// new node and on every node from the parent up to the root, so the
    /// next registration pass picks it up.
    pub fn add_child(
        &mut self,
        parent_idx: usize,
        rect: WidgetRect,
        is_focusable: bool,
        grabs_pointer: bool,
        takes_focus_on: Option<u64>,
    ) -> (idx: usize)
        requires
            old(self).wf(),
            parent_idx < old(self)@.len(),
            old(self)@[parent_idx as int].attached,
            rect.wf(),
        ensures
            final(self).wf(),
            idx == old(self)@.len(),
            final(self)@.len() == old(self)@.len() + 1,
            final(self)@[idx as int] == (NodeView {
                id: idx as u64,
                parent: Some(parent_idx),
                rect,
                attached: true,
                added: false,
                is_hot: false,
                is_active: false,
                has_focus: false,
                children_changed: true,
                needs_layout: false,
                needs_paint: false,
                is_focusable,
                grabs_pointer,
                takes_focus_on,
                children: Set::<u64>::empty(),
            }),
            forall|i: int|
                0 <= i < old(self)@.len() ==> #[trigger] final(self)@[i] == (NodeView {
                    children_changed: old(self)@[i].children_changed || anc_or_self(
                        old(self)@,
                        i,
                        parent_idx as int,
                    ),
                    ..old(self)@[i]
                }),
            final(self).focus_spec() == old(self).focus_spec(),
            final(self).chain_spec() == old(self).chain_spec(),
    {
        let idx = self.nodes.len();
        let node = Node {
            parent: Some(parent_idx),
            rect,
            attached: true,
            added: false,
            is_hot: false,
            is_active: false,
            has_focus: false,
            children_changed: true,
            needs_layout: false,
            needs_paint: false,
            is_focusable,
            grabs_pointer,
            takes_focus_on,
            children: FastSet::new(),
        };
        let ghost pre = self@;
        self.nodes.push(node);
        let ghost pushed = self@;
        proof {
            assert forall|i: int| 0 <= i < pre.len() implies #[trigger] pushed[i] == pre[i] by {
                assert(self.nodes@[i] == old(self).nodes@[i]);
            }
            assert(wf_view(pushed, self.focus_spec()));
        }
        self.mark_chain(parent_idx);
        proof {
            assert forall|i: int|
                anc_or_self(pushed, i, parent_idx as int) == anc_or_self(
                    pre,
                    i,
                    parent_idx as int,
                ) by {
                lemma_anc_prefix(pre, pushed, i, parent_idx as int);
            }
            assert(!anc_or_self(pushed, idx as int, parent_idx as int)) by {
                if is_ancestor(pushed, idx as int, parent_idx as int) {
                    lemma_ancestor_lt(pushed, idx as int, parent_idx as int);
                }
            }
            assert(final(self)@[idx as int] == (NodeView {
                children_changed: pushed[idx as int].children_changed || anc_or_self(
                    pushed,
                    idx as int,
                    parent_idx as int,
                ),
                ..pushed[idx as int]
            }));
        }
        idx
    }
}

/// The x coordinate of the pointer in the coordinate space that node
/// `i`'s rect is expressed in: the parent's space, or window space for
/// the root.
pub open spec fn loc_x(v: Seq<NodeView>, px: int, i: int) -> int
    decreases i,
{
    if 0 < i < v.len() {
        match v[i].parent {
            Some(p) => if p < i {
                loc_x(v, px, p as int) - v[p as int].rect.x
            } else {
                px
            },
            None => px,
        }
    } else {
        px
    }
}

/// The y coordinate of the pointer in the coordinate space that node
/// `i`'s rect is expressed in.
pub open spec fn loc_y(v: Seq<NodeView>, py: int, i: int) -> int
    decreases i,
{
    if 0 < i < v.len() {
        match v[i].parent {
            Some(p) => if p < i {
                loc_y(v, py, p as int) - v[p as int].rect.y
            } else {
                py
            },
            None => py,
        }
    } else {
        py
    }
}

/// What a pointer event at `(px, py)` makes of node `i`'s hotness: a
/// node is hot exactly when it is attached, its parent is hot (or it is
/// the root), and the position falls inside its bounds.
pub open spec fn new_hot_spec(v: Seq<NodeView>, px: int, py: int, i: int) -> bool
    decreases i,
{
    if 0 <= i < v.len() && v[i].attached {
        let parent_ok = match v[i].parent {
            Some(p) => p < i && new_hot_spec(v, px, py, p as int),
            None => true,
        };
        parent_ok && v[i].rect.contains_spec(loc_x(v, px, i), loc_y(v, py, i))
    } else {
        false
    }
}

/// Whether the pointer event changes node `i`'s stored hotness.
pub open spec fn hot_changed_spec(v: Seq<NodeView>, px: int, py: int, i: int) -> bool {
    v[i].is_hot != new_hot_spec(v, px, py, i)
}

/// Whether node `i` is the active node or one of its ancestors: the
/// chain that keeps receiving pointer events while a node has captured
/// the pointer.
pub open spec fn on_active_path(v: Seq<NodeView>, i: int) -> bool {
    exists|j: int| 0 <= j < v.len() && (#[trigger] v[j].is_active) && anc_or_self(v, i, j)
}

/// Whether node `i` receives the pointer event itself: it is hot after
/// the pass, or its hotness just changed, or it lies on the active
/// capture chain.
pub open spec fn receives_pointer(v: Seq<NodeView>, px: int, py: int, i: int) -> bool {
    new_hot_spec(v, px, py, i) || hot_changed_spec(v, px, py, i) || on_active_path(v, i)
}

/// The deliveries node `i` sees for one pointer event: a synthesized
/// `HotChanged` when its hotness flips, strictly before the event
/// itself.
pub open spec fn node_ptr_part(
    v: Seq<NodeView>,
    px: int,
    py: int,
    kind: EventKind,
    i: int,
) -> Seq<TraceRecord> {
    let hc: Seq<TraceRecord> = if hot_changed_spec(v, px, py, i) {
        seq![
            TraceRecord {
                id: v[i].id,
                rec: Record::L(LifeCycle::HotChanged(new_hot_spec(v, px, py, i))),
            },
        ]
    } else {
        Seq::empty()
    };
    let ev: Seq<TraceRecord> = if receives_pointer(v, px, py, i) {
        seq![TraceRecord { id: v[i].id, rec: Record::E(kind) }]
    } else {
        Seq::empty()
    };
    hc + ev
}

/// The full delivery trace of one pointer event over the first `n`
/// nodes, in traversal order: parents before children.
pub open spec fn ptr_trace(
    v: Seq<NodeView>,
    px: int,
    py: int,
    kind: EventKind,
    n: int,
) -> Seq<TraceRecord>
    decreases n,
{
    if n <= 0 {
        Seq::empty()
    } else {
        ptr_trace(v, px, py, kind, n - 1) + node_ptr_part(v, px, py, kind, n - 1)
    }
}

impl WidgetTree {
    /// For every slot, whether it is the active node or an ancestor of
    /// it.
    fn active_path_flags(&self) -> (r: Vec<bool>)
        requires
            self.wf(),
        ensures
            r@.len() == self@.len(),
            forall|i: int| 0 <= i < self@.len() ==> r@[i] == on_active_path(self@, i),
    {
        let n = self.nodes.len();
        let mut flags: Vec<bool> = Vec::new();
        let mut k: usize = 0;
        while k < n
            invariant
                flags@.len() == k,
                k <= n,
                forall|i: int| 0 <= i < k ==> !flags@[i],
            decreases n - k,
        {
            flags.push(false);
            k += 1;
        }
        let mut active: Option<usize> = None;
        let mut j: usize = 0;
        while j < n
            invariant
                self.wf(),
                n == self@.len(),
                j <= n,
                match active {
                    Some(a) => a < n && self@[a as int].is_active,
                    None => forall|i: int| 0 <= i < j ==> !(#[trigger] self@[i].is_active),
                },
            decreases n - j,
        {
            if self.nodes[j].is_active {
                active = Some(j);
            }
            j += 1;
        }
        match active {
            None => {
                proof {
                    assert forall|i: int| 0 <= i < self@.len() implies flags@[i] == on_active_path(
                        self@,
                        i,
                    ) by {
                        if on_active_path(self@, i) {
                            let jj = choose|jj: int|
                                0 <= jj < self@.len() && (#[trigger] self@[jj].is_active)
                                    && anc_or_self(self@, i, jj);
                        }
                    }
                }
                flags
            },
            Some(a) => {
                let ghost visited = Set::<int>::empty();
                let mut cur_opt: Option<usize> = Some(a);
                let mut flags = flags;
                while cur_opt.is_some()
                    invariant
                        self.wf(),
                        n == self@.len(),
                        a < n,
                        self@[a as int].is_active,
                        flags@.len() == n,
                        forall|i: int| 0 <= i < n ==> flags@[i] == visited.contains(i),
                        forall|i: int|
                            #[trigger] visited.contains(i) ==> anc_or_self(self@, i, a as int),
                        match cur_opt {
                            Some(c) => c < n && anc_or_self(self@, c as int, a as int) && (forall|i: int|
                                anc_or_self(self@, i, a as int) <==> visited.contains(i)
                                    || anc_or_self(self@, i, c as int)),
                            None => forall|i: int|
                                anc_or_self(self@, i, a as int) <==> visited.contains(i),
                        },
                    decreases (match cur_opt {
                        Some(c) => c + 1int,
                        None => 0int,
                    }),
                {
                    let cur = cur_opt.unwrap();
                    flags[cur] = true;
                    proof {
                        visited = visited.insert(cur as int);
                    }
                    let parent = self.parent_of(cur);
                    proof {
                        let v = self@;
                        match parent {
                            Some(p) => {
                                assert(is_ancestor(v, p as int, cur as int));
                                lemma_ancestor_trans_or_self(v, p as int, cur as int, a as int);
                                assert forall|i: int|
                                    anc_or_self(v, i, a as int) implies visited.contains(i)
                                    || anc_or_self(v, i, p as int) by {
                                    if !visited.contains(i) {
                                        assert(anc_or_self(v, i, cur as int));
                                        assert(is_ancestor(v, i, cur as int));
                                    }
                                }
                                assert forall|i: int|
                                    visited.contains(i) || anc_or_self(
                                        v,
                                        i,
                                        p as int,
                                    ) implies anc_or_self(v, i, a as int) by {
                                    if !visited.contains(i) {
                                        if i != p as int {
                                            lemma_ancestor_trans(v, i, p as int, cur as int);
                                        }
                                        assert(is_ancestor(v, i, cur as int));
                                        if cur as int != a as int {
                                            lemma_ancestor_trans(v, i, cur as int, a as int);
                                        }
                                    }
                                }
                            },
                            None => {
                                assert forall|i: int|
                                    anc_or_self(v, i, a as int) implies visited.contains(i) by {
                                    if !visited.contains(i) {
                                        assert(anc_or_self(v, i, cur as int));
                                        assert(is_ancestor(v, i, cur as int));
                                    }
                                }
                            },
                        }
                    }
                    cur_opt = parent;
                }
                proof {
                    assert forall|i: int|
                        0 <= i < self@.len() implies flags@[i] == on_active_path(self@, i) by {
                        assert(flags@[i] == visited.contains(i));
                        if flags@[i] {
                            assert(visited.contains(i));
                            assert(anc_or_self(self@, i, a as int));
                            assert(self@[a as int].is_active);
                        }
                        if on_active_path(self@, i) {
                            let jj = choose|jj: int|
                                0 <= jj < self@.len() && (#[trigger] self@[jj].is_active)
                                    && anc_or_self(self@, i, jj);
                            assert(jj == a as int);
                        }
                    }
                }
                flags
            },
        }
    }
}




/// The stored node-local pointer positions agree with [`loc_x`]/[`loc_y`]
/// for every hot node among the first `k`.
pub open spec fn locs_ok(
    v: Seq<NodeView>,
    px: int,
    py: int,
    lxs: Seq<i64>,
    lys: Seq<i64>,
    k: int,
) -> bool {
    forall|j: int|
        #![trigger lxs[j]]
        #![trigger new_hot_spec(v, px, py, j)]
        0 <= j < k && new_hot_spec(v, px, py, j) ==> lxs[j] == loc_x(v, px, j) - v[j].rect.x
            && lys[j] == loc_y(v, py, j) - v[j].rect.y
}

/// Reads one entry of [`locs_ok`].
proof fn lemma_locs_ok_at(
    v: Seq<NodeView>,
    px: int,
    py: int,
    lxs: Seq<i64>,
    lys: Seq<i64>,
    k: int,
    j: int,
)
    requires
        locs_ok(v, px, py, lxs, lys, k),
        0 <= j < k,
        new_hot_spec(v, px, py, j),
    ensures
        lxs[j] == loc_x(v, px, j) - v[j].rect.x,
        lys[j] == loc_y(v, py, j) - v[j].rect.y,
{
}

/// The `HotChanged` entry node `i` gets when its hotness flips.
pub open spec fn hc_rec(v: Seq<NodeView>, px: int, py: int, i: int) -> TraceRecord {
    TraceRecord { id: v[i].id, rec: Record::L(LifeCycle::HotChanged(new_hot_spec(v, px, py, i))) }
}

/// The event entry node `i` gets when the dispatch rules select it.
pub open spec fn ev_rec(v: Seq<NodeView>, kind: EventKind, i: int) -> TraceRecord {
    TraceRecord { id: v[i].id, rec: Record::E(kind) }
}

/// Unfolds one step of [`ptr_trace`]: the trace over `i + 1` nodes is the
/// trace over `i` nodes followed by node `i`'s deliveries.
proof fn lemma_ptr_trace_step(
    v: Seq<NodeView>,
    px: int,
    py: int,
    kind: EventKind,
    i: int,
    t: Seq<TraceRecord>,
)
    requires
        0 <= i,
        t == ptr_trace(v, px, py, kind, i),
    ensures
        hot_changed_spec(v, px, py, i) ==> ptr_trace(v, px, py, kind, i + 1) == t.push(
            hc_rec(v, px, py, i),
        ).push(ev_rec(v, kind, i)),
        !hot_changed_spec(v, px, py, i) && receives_pointer(v, px, py, i) ==> ptr_trace(
            v,
            px,
            py,
            kind,
            i + 1,
        ) == t.push(ev_rec(v, kind, i)),
        !hot_changed_spec(v, px, py, i) && !receives_pointer(v, px, py, i) ==> ptr_trace(
            v,
            px,
            py,
            kind,
            i + 1,
        ) == t,
{
    let part = node_ptr_part(v, px, py, kind, i);
    assert(ptr_trace(v, px, py, kind, i + 1) == t + part);
    if hot_changed_spec(v, px, py, i) {
        assert(receives_pointer(v, px, py, i));
        assert(t + part =~= t.push(hc_rec(v, px, py, i)).push(ev_rec(v, kind, i)));
    } else if receives_pointer(v, px, py, i) {
        assert(t + part =~= t.push(ev_rec(v, kind, i)));
    } else {
        assert(t + part =~= t);
    }
}

impl WidgetTree {
    /// Recompute hotness for a pointer event at `(px, py)` and deliver
    /// it. For each node in traversal order: a `HotChanged` lifecycle
    /// notification is synthesized when the node's hotness flips,
    /// strictly before the event itself; the event then reaches the node
    /// exactly when it ends up hot, its hotness changed, or it lies on
    /// the active capture chain.
    fn hot_pass(&mut self, px: i64, py: i64, kind: EventKind) -> (r: Vec<TraceRecord>)
        requires
            old(self).wf(),
        ensures
            final(self).wf(),
            final(self)@.len() == old(self)@.len(),
            forall|i: int|
                0 <= i < old(self)@.len() ==> #[trigger] final(self)@[i] == (NodeView {
                    is_hot: new_hot_spec(old(self)@, px as int, py as int, i),
                    ..old(self)@[i]
                }),
            r@ == ptr_trace(old(self)@, px as int, py as int, kind, old(self)@.len() as int),
            final(self).focus_spec() == old(self).focus_spec(),
            final(self).chain_spec() == old(self).chain_spec(),
    {
        let ghost pre = self@;
        let n = self.nodes.len();
        let on_active = self.active_path_flags();
        let mut hots: Vec<bool> = Vec::new();
        let mut locs_x: Vec<i64> = Vec::new();
        let mut locs_y: Vec<i64> = Vec::new();
        let mut i: usize = 0;
        while i < n
            invariant
                pre == old(self)@,
                self@ == pre,
                n == pre.len(),
                i <= n,
                forall|j: int|
                    0 < j < n ==> (#[trigger] pre[j].parent) is Some && pre[j].parent.unwrap()
                        < j,
                n > 0 ==> pre[0].parent is None,
                forall|j: int| 0 <= j < n ==> (#[trigger] pre[j].rect).wf(),
                hots@.len() == i,
                locs_x@.len() == i,
                locs_y@.len() == i,
                forall|j: int|
                    0 <= j < i ==> #[trigger] hots@[j] == new_hot_spec(
                        pre,
                        px as int,
                        py as int,
                        j,
                    ),
                locs_ok(pre, px as int, py as int, locs_x@, locs_y@, i as int),
            decreases n - i,
        {
            let node_attached = self.nodes[i].attached;
            let node_rect = self.nodes[i].rect;
            let node_parent = self.nodes[i].parent;
            proof {
                assert(self@[i as int] == self.nodes@[i as int].nv(i as int));
                assert(self@[i as int] == pre[i as int]);
                assert(node_attached == pre[i as int].attached);
                assert(node_rect == pre[i as int].rect);
                assert(node_parent == pre[i as int].parent);
                assert(node_rect.wf());
            }
            let mut newh = false;
            let mut lx: i64 = 0;
            let mut ly: i64 = 0;
            if node_attached {
                let ppos: Option<(i64, i64)> = match node_parent {
                    None => Some((px, py)),
                    Some(p) => {
                        proof {
                            assert(p < i);
                        }
                        let ph = hots[p];
                        proof {
                            if ph {
                                lemma_locs_ok_at(
                                    pre,
                                    px as int,
                                    py as int,
                                    locs_x@,
                                    locs_y@,
                                    i as int,
                                    p as int,
                                );
                            }
                        }
                        if ph {
                            Some((locs_x[p], locs_y[p]))
                        } else {
                            None
                        }
                    },
                };
                match ppos {
                    Some((ppx, ppy)) => {
                        proof {
                            assert(ppx == loc_x(pre, px as int, i as int));
                            assert(ppy == loc_y(pre, py as int, i as int));
                        }
                        if node_rect.contains(ppx, ppy) {
                            newh = true;
                            lx = ppx - node_rect.x;
                            ly = ppy - node_rect.y;
                        }
                    },
                    None => {},
                }
            }
            proof {
                assert(newh == new_hot_spec(pre, px as int, py as int, i as int));
            }
            let ghost hots_before = hots@;
            let ghost lxs_before = locs_x@;
            let ghost lys_before = locs_y@;
            hots.push(newh);
            locs_x.push(lx);
            locs_y.push(ly);
            proof {
                assert(hots@ == hots_before.push(newh));
                assert(locs_x@ == lxs_before.push(lx));
                assert(locs_y@ == lys_before.push(ly));
                assert forall|j: int|
                    0 <= j < i + 1 implies #[trigger] hots@[j] == new_hot_spec(
                        pre,
                        px as int,
                        py as int,
                        j,
                    ) by {
                    if j < i {
                        assert(hots@[j] == hots_before[j]);
                    }
                }
                assert(locs_ok(pre, px as int, py as int, locs_x@, locs_y@, i + 1)) by {
                    assert forall|j: int|
                        0 <= j < i + 1 && new_hot_spec(pre, px as int, py as int, j) implies (
                    #[trigger] locs_x@[j]) == loc_x(pre, px as int, j) - pre[j].rect.x
                        && locs_y@[j] == loc_y(pre, py as int, j) - pre[j].rect.y by {
                        if j < i {
                            assert(locs_x@[j] == lxs_before[j]);
                            assert(locs_y@[j] == lys_before[j]);
                        }
                    }
                }
            }
            i += 1;
        }
        let mut r: Vec<TraceRecord> = Vec::new();
        let mut i: usize = 0;
        while i < n
            invariant
                pre == old(self)@,
                n == pre.len(),
                self@.len() == n,
                i <= n,
                forall|j: int| 0 <= j < n ==> (#[trigger] pre[j].id) == j as u64,
                hots@.len() == n,
                forall|j: int|
                    0 <= j < n ==> #[trigger] hots@[j] == new_hot_spec(
                        pre,
                        px as int,
                        py as int,
                        j,
                    ),
                on_active@.len() == n,
                forall|j: int| 0 <= j < n ==> #[trigger] on_active@[j] == on_active_path(pre, j),
                forall|j: int|
                    0 <= j < i ==> #[trigger] self@[j] == (NodeView {
                        is_hot: new_hot_spec(pre, px as int, py as int, j),
                        ..pre[j]
                    }),
                forall|j: int| i <= j < n ==> #[trigger] self@[j] == pre[j],
                r@ == ptr_trace(pre, px as int, py as int, kind, i as int),
                self.focus_spec() == old(self).focus_spec(),
                self.chain_spec() == old(self).chain_spec(),
            decreases n - i,
        {
            proof {
                assert(self@[i as int] == pre[i as int]);
            }
            let old_hot = self.nodes[i].is_hot;
            let newh = hots[i];
            let hot_changed = old_hot != newh;
            let ghost before = self@;
            self.set_is_hot_at(i, newh);
            proof {
                assert forall|j: int|
                    0 <= j < i + 1 implies #[trigger] self@[j] == (NodeView {
                        is_hot: new_hot_spec(pre, px as int, py as int, j),
                        ..pre[j]
                    }) by {
                    if j < i {
                        assert(self@[j] == before[j]);
                    } else {
                        assert(self@[j] == (NodeView { is_hot: newh, ..before[j] }));
                    }
                }
                assert forall|j: int| i + 1 <= j < n implies #[trigger] self@[j] == pre[j] by {
                    assert(self@[j] == before[j]);
                }
                lemma_ptr_trace_step(pre, px as int, py as int, kind, i as int, r@);
                assert(hot_changed == hot_changed_spec(pre, px as int, py as int, i as int));
                assert((newh || hot_changed || on_active@[i as int]) == receives_pointer(
                    pre,
                    px as int,
                    py as int,
                    i as int,
                ));
            }
            if hot_changed {
                r.push(
                    TraceRecord { id: i as u64, rec: Record::L(LifeCycle::HotChanged(newh)) },
                );
            }
            if newh || hot_changed || on_active[i] {
                r.push(TraceRecord { id: i as u64, rec: Record::E(kind) });
            }
            proof {
                assert(r@ == ptr_trace(pre, px as int, py as int, kind, i as int + 1));
            }
            i += 1;
        }
        proof {
            let fin = self@;
            let fc = old(self).focus_spec();
            assert forall|i: int|
                0 < i < fin.len() && (#[trigger] fin[i].is_hot) implies fin[fin[
            i].parent.unwrap() as int].is_hot by {
                assert(fin[i].is_hot == new_hot_spec(pre, px as int, py as int, i));
            }
            assert(wf_view(fin, fc));
        }
        r
    }

    /// Dispatch a pointer move: recompute hotness, synthesize the
    /// `HotChanged` notifications, and forward the move to the nodes the
    /// dispatch rules select. Active capture is untouched.
    pub fn pointer_move(&mut self, px: i64, py: i64) -> (r: Vec<TraceRecord>)
        requires
            old(self).wf(),
        ensures
            final(self).wf(),
            final(self)@.len() == old(self)@.len(),
            forall|i: int|
                0 <= i < old(self)@.len() ==> #[trigger] final(self)@[i] == (NodeView {
                    is_hot: new_hot_spec(old(self)@, px as int, py as int, i),
                    ..old(self)@[i]
                }),
            r@ == ptr_trace(
                old(self)@,
                px as int,
                py as int,
                EventKind::MouseMoved,
                old(self)@.len() as int,
            ),
            final(self).focus_spec() == old(self).focus_spec(),
            final(self).chain_spec() == old(self).chain_spec(),
    {
        self.hot_pass(px, py, EventKind::MouseMoved)
    }
}

/// The node that captures the pointer on a press: the last node in
/// traversal order among the first `k` that ends up hot and opts into
/// pointer capture.
pub open spec fn press_target_upto(v: Seq<NodeView>, px: int, py: int, k: int) -> Option<int>
    decreases k,
{
    if k <= 0 {
        None
    } else if new_hot_spec(v, px, py, k - 1) && v[k - 1].grabs_pointer {
        Some(k - 1)
    } else {
        press_target_upto(v, px, py, k - 1)
    }
}

/// A press target is a valid, hot, capture-willing node.
pub proof fn lemma_press_target_props(v: Seq<NodeView>, px: int, py: int, k: int, c: int)
    requires
        press_target_upto(v, px, py, k) == Some(c),
    ensures
        0 <= c < k,
        new_hot_spec(v, px, py, c),
        v[c].grabs_pointer,
    decreases k,
{
    if k > 0 && !(new_hot_spec(v, px, py, k - 1) && v[k - 1].grabs_pointer) {
        lemma_press_target_props(v, px, py, k - 1, c);
    }
}

impl WidgetTree {
    /// Whether any node currently holds active capture.
    fn any_active(&self) -> (r: bool)
        ensures
            r == exists|j: int| 0 <= j < self@.len() && (#[trigger] self@[j].is_active),
    {
        let n = self.nodes.len();
        let mut j: usize = 0;
        while j < n
            invariant
                n == self@.len(),
                j <= n,
                forall|k: int| 0 <= k < j ==> !(#[trigger] self@[k].is_active),
            decreases n - j,
        {
            if self.nodes[j].is_active {
                proof {
                    assert(self@[j as int].is_active);
                }
                return true;
            }
            proof {
                assert(self@[j as int] == self.nodes@[j as int].nv(j as int));
            }
            j += 1;
        }
        false
    }

    /// Dispatch a press: recompute hotness and deliver the event as for
    /// a move; then, if no node holds capture yet, the last hot node in
    /// traversal order that opts into capture becomes active. Capture is
    /// only ever acquired by a node that is hot at the press.
    #[verifier::spinoff_prover]
    #[verifier::rlimit(100)]
    pub fn pointer_down(&mut self, px: i64, py: i64) -> (r: Vec<TraceRecord>)
        requires
            old(self).wf(),
        ensures
            final(self).wf(),
            final(self)@.len() == old(self)@.len(),
            r@ == ptr_trace(
                old(self)@,
                px as int,
                py as int,
                EventKind::MouseDown,
                old(self)@.len() as int,
            ),
            forall|i: int|
                0 <= i < old(self)@.len() ==> #[trigger] final(self)@[i] == (NodeView {
                    is_hot: new_hot_spec(old(self)@, px as int, py as int, i),
                    is_active: press_active_after(old(self)@, px as int, py as int, i),
                    ..old(self)@[i]
                }),
            forall|i: int|
                0 <= i < old(self)@.len() && #[trigger] final(self)@[i].is_active && !old(
                    self,
                )@[i].is_active ==> final(self)@[i].is_hot && old(self)@[i].grabs_pointer,
            final(self).focus_spec() == old(self).focus_spec(),
            final(self).chain_spec() == old(self).chain_spec(),
    {
        let ghost pre = self@;
        let r = self.hot_pass(px, py, EventKind::MouseDown);
        let ghost mid = self@;
        let n = self.nodes.len();
        proof {
            assert forall|j: int|
                0 <= j < n implies (#[trigger] mid[j].is_active) == pre[j].is_active by {
                assert(mid[j] == (NodeView {
                    is_hot: new_hot_spec(pre, px as int, py as int, j),
                    ..pre[j]
                }));
            }
        }
        if !self.any_active() {
            proof {
                assert(!exists|j: int| 0 <= j < pre.len() && (#[trigger] pre[j].is_active)) by {
                    if exists|j: int| 0 <= j < pre.len() && (#[trigger] pre[j].is_active) {
                        let j = choose|j: int|
                            0 <= j < pre.len() && (#[trigger] pre[j].is_active);
                        assert(mid[j].is_active);
                    }
                }
            }
            let mut cand: Option<usize> = None;
            let mut i: usize = 0;
            while i < n
                invariant
                    n == self@.len(),
                    self@ == mid,
                    pre.len() == n,
                    i <= n,
                    forall|j: int|
                        0 <= j < n ==> #[trigger] mid[j] == (NodeView {
                            is_hot: new_hot_spec(pre, px as int, py as int, j),
                            ..pre[j]
                        }),
                    (match cand {
                        Some(c) => Some(c as int),
                        None => None,
                    }) == press_target_upto(pre, px as int, py as int, i as int),
                decreases n - i,
            {
                proof {
                    assert(self@[i as int] == self.nodes@[i as int].nv(i as int));
                }
                if self.nodes[i].is_hot && self.nodes[i].grabs_pointer {
                    cand = Some(i);
                }
                i += 1;
            }
            match cand {
                Some(c) => {
                    proof {
                        lemma_press_target_props(pre, px as int, py as int, n as int, c as int);
                    }
                    let ghost before = self@;
                    self.set_is_active_at(c, true);
                    proof {
                        let fin = self@;
                        let fc = old(self).focus_spec();
                        assert forall|i: int|
                            0 <= i < pre.len() implies #[trigger] fin[i] == (NodeView {
                                is_hot: new_hot_spec(pre, px as int, py as int, i),
                                is_active: press_active_after(pre, px as int, py as int, i),
                                ..pre[i]
                            }) by {
                            if i != c {
                                assert(fin[i] == before[i]);
                            }
                        }
                        assert(wf_view(fin, fc)) by {
                            assert forall|i: int, j: int|
                                0 <= i < fin.len() && 0 <= j < fin.len() && (
                                #[trigger] fin[i].is_active) && (#[trigger] fin[j].is_active)
                                implies i == j by {
                                assert(fin[i].is_active ==> i == c);
                            }
                        }
                    }
                },
                None => {
                    proof {
                        assert forall|i: int|
                            0 <= i < pre.len() implies #[trigger] self@[i] == (NodeView {
                                is_hot: new_hot_spec(pre, px as int, py as int, i),
                                is_active: press_active_after(pre, px as int, py as int, i),
                                ..pre[i]
                            }) by {}
                    }
                },
            }
        } else {
            proof {
                let j = choose|j: int| 0 <= j < mid.len() && (#[trigger] mid[j].is_active);
                assert(pre[j].is_active);
                assert forall|i: int|
                    0 <= i < pre.len() implies #[trigger] self@[i] == (NodeView {
                        is_hot: new_hot_spec(pre, px as int, py as int, i),
                        is_active: press_active_after(pre, px as int, py as int, i),
                        ..pre[i]
                    }) by {}
            }
        }
        r
    }

    /// Dispatch a release: recompute hotness and deliver the event as
    /// for a move; the node holding capture receives the event even when
    /// the pointer has left its bounds, and capture is cleared.
    pub fn pointer_up(&mut self, px: i64, py: i64) -> (r: Vec<TraceRecord>)
        requires
            old(self).wf(),
        ensures
            final(self).wf(),
            final(self)@.len() == old(self)@.len(),
            r@ == ptr_trace(
                old(self)@,
                px as int,
                py as int,
                EventKind::MouseUp,
                old(self)@.len() as int,
            ),
            forall|i: int|
                0 <= i < old(self)@.len() ==> #[trigger] final(self)@[i] == (NodeView {
                    is_hot: new_hot_spec(old(self)@, px as int, py as int, i),
                    is_active: false,
                    ..old(self)@[i]
                }),
            final(self).focus_spec() == old(self).focus_spec(),
            final(self).chain_spec() == old(self).chain_spec(),
    {
        let ghost pre = self@;
        let r = self.hot_pass(px, py, EventKind::MouseUp);
        let ghost mid = self@;
        let n = self.nodes.len();
        let mut i: usize = 0;
        while i < n
            invariant
                n == self@.len(),
                pre.len() == n,
                i <= n,
                forall|j: int|
                    0 <= j < n ==> #[trigger] mid[j] == (NodeView {
                        is_hot: new_hot_spec(pre, px as int, py as int, j),
                        ..pre[j]
                    }),
                forall|j: int|
                    0 <= j < i ==> #[trigger] self@[j] == (NodeView {
                        is_active: false,
                        ..mid[j]
                    }),
                forall|j: int| i <= j < n ==> #[trigger] self@[j] == mid[j],
                self.focus_spec() == old(self).focus_spec(),
                self.chain_spec() == old(self).chain_spec(),
            decreases n - i,
        {
            let ghost before = self@;
            self.set_is_active_at(i, false);
            proof {
                assert forall|j: int|
                    0 <= j < i + 1 implies #[trigger] self@[j] == (NodeView {
                        is_active: false,
                        ..mid[j]
                    }) by {
                    if j < i {
                        assert(self@[j] == before[j]);
                    } else {
                        assert(self@[j] == (NodeView { is_active: false, ..before[j] }));
                    }
                }
                assert forall|j: int| i + 1 <= j < n implies #[trigger] self@[j] == mid[j] by {
                    assert(self@[j] == before[j]);
                }
            }
            i += 1;
        }
        proof {
            let fin = self@;
            let fc = old(self).focus_spec();
            assert forall|i: int|
                0 <= i < pre.len() implies #[trigger] fin[i] == (NodeView {
                    is_hot: new_hot_spec(pre, px as int, py as int, i),
                    is_active: false,
                    ..pre[i]
                }) by {}
            assert(wf_view(fin, fc));
        }
        r
    }

    /// Whether the node in slot `idx` is hot.
    pub fn is_hot(&self, idx: usize) -> (r: bool)
        requires
            idx < self@.len(),
        ensures
            r == self@[idx as int].is_hot,
    {
        proof {
            assert(self@[idx as int] == self.nodes@[idx as int].nv(idx as int));
        }
        self.nodes[idx].is_hot
    }

    /// Whether the node in slot `idx` holds active capture.
    pub fn is_active(&self, idx: usize) -> (r: bool)
        requires
            idx < self@.len(),
        ensures
            r == self@[idx as int].is_active,
    {
        proof {
            assert(self@[idx as int] == self.nodes@[idx as int].nv(idx as int));
        }
        self.nodes[idx].is_active
    }

    /// Whether the node in slot `idx` is the focus holder.
    pub fn has_focus(&self, idx: usize) -> (r: bool)
        requires
            idx < self@.len(),
        ensures
            r == self@[idx as int].has_focus,
    {
        proof {
            assert(self@[idx as int] == self.nodes@[idx as int].nv(idx as int));
        }
        self.nodes[idx].has_focus
    }

    /// Whether the node in slot `idx` still has an unregistered
    /// structural change below it.
    pub fn children_changed(&self, idx: usize) -> (r: bool)
        requires
            idx < self@.len(),
        ensures
            r == self@[idx as int].children_changed,
    {
        proof {
            assert(self@[idx as int] == self.nodes@[idx as int].nv(idx as int));
        }
        self.nodes[idx].children_changed
    }

    /// Whether the node in slot `idx` is attached.
    pub fn is_attached(&self, idx: usize) -> (r: bool)
        requires
            idx < self@.len(),
        ensures
            r == self@[idx as int].attached,
    {
        proof {
            assert(self@[idx as int] == self.nodes@[idx as int].nv(idx as int));
        }
        self.nodes[idx].attached
    }

    /// Whether `id` is in the descendant membership set of slot `idx`.
    pub fn children_contains(&self, idx: usize, id: u64) -> (r: bool)
        requires
            idx < self@.len(),
        ensures
            r == self@[idx as int].children.contains(id),
    {
        proof {
            assert(self@[idx as int] == self.nodes@[idx as int].nv(idx as int));
        }
        self.nodes[idx].children.contains(&id)
    }

    /// The number of identifiers in the descendant membership set of
    /// slot `idx`.
    pub fn children_len(&self, idx: usize) -> (r: usize)
        requires
            idx < self@.len(),
        ensures
            r == self@[idx as int].children.len(),
    {
        proof {
            assert(self@[idx as int] == self.nodes@[idx as int].nv(idx as int));
        }
        self.nodes[idx].children.len()
    }

    /// The identifier of the focus holder, if any.
    pub fn focus(&self) -> (r: Option<u64>)
        ensures
            r == self.focus_spec(),
    {
        self.focus
    }

    /// The focus chain as of the last registration pass.
    pub fn focus_chain(&self) -> (r: &Vec<u64>)
        ensures
            r@ == self.chain_spec(),
    {
        &self.focus_chain
    }
}

/// Which nodes hold capture after a press at `(px, py)`: the previous
/// holder if there was one, else the press target.
pub open spec fn press_active_after(v: Seq<NodeView>, px: int, py: int, i: int) -> bool {
    if exists|j: int| 0 <= j < v.len() && (#[trigger] v[j].is_active) {
        v[i].is_active
    } else {
        match press_target_upto(v, px, py, v.len() as int) {
            Some(c) => i == c,
            None => false,
        }
    }
}

/// Parent links point strictly backwards in the arena, and the root has
/// none.
pub open spec fn parents_ok(v: Seq<NodeView>) -> bool {
    &&& forall|i: int|
        0 < i < v.len() ==> (#[trigger] v[i].parent) is Some && v[i].parent.unwrap() < i
    &&& v.len() > 0 ==> v[0].parent is None
}

/// The identifiers of the attached proper descendants of node `i` among
/// the first `d` slots.
pub open spec fn desc_set_upto(v: Seq<NodeView>, i: int, d: int) -> Set<u64> {
    Set::new(
        |x: u64| 0 <= x < d && v[x as int].attached && is_ancestor(v, i, x as int),
    )
}

/// The identifiers of all attached proper descendants of node `i`.
pub open spec fn desc_set(v: Seq<NodeView>, i: int) -> Set<u64> {
    desc_set_upto(v, i, v.len() as int)
}

/// The `WidgetAdded` deliveries a registration pass makes over the
/// first `n` slots: one per attached node that has not been added yet,
/// in traversal order.
pub open spec fn added_trace(v: Seq<NodeView>, n: int) -> Seq<TraceRecord>
    decreases n,
{
    if n <= 0 {
        Seq::empty()
    } else {
        added_trace(v, n - 1) + (if v[n - 1].attached && !v[n - 1].added {
            seq![TraceRecord { id: v[n - 1].id, rec: Record::L(LifeCycle::WidgetAdded) }]
        } else {
            Seq::empty()
        })
    }
}

/// The focus chain a registration pass builds over the first `n` slots:
/// the attached, focusable nodes in traversal order.
pub open spec fn focusables(v: Seq<NodeView>, n: int) -> Seq<u64>
    decreases n,
{
    if n <= 0 {
        Seq::empty()
    } else {
        focusables(v, n - 1) + (if v[n - 1].attached && v[n - 1].is_focusable {
            seq![v[n - 1].id]
        } else {
            Seq::empty()
        })
    }
}

impl WidgetTree {
    /// Whether slot `a` is slot `d` or a proper ancestor of it.
    fn is_ancestor_exec(&self, a: usize, d: usize) -> (r: bool)
        requires
            parents_ok(self@),
            a < self@.len(),
            d < self@.len(),
        ensures
            r == anc_or_self(self@, a as int, d as int),
    {
        let ghost v = self@;
        let mut cur_opt: Option<usize> = Some(d);
        while cur_opt.is_some()
            invariant
                v == self@,
                parents_ok(v),
                a < v.len(),
                match cur_opt {
                    Some(c) => c < v.len() && (anc_or_self(v, a as int, d as int)
                        == anc_or_self(v, a as int, c as int)),
                    None => !anc_or_self(v, a as int, d as int),
                },
            decreases (match cur_opt {
                Some(c) => c + 1int,
                None => 0int,
            }),
        {
            let cur = cur_opt.unwrap();
            if cur == a {
                return true;
            }
            let parent = self.parent_of(cur);
            proof {
                match parent {
                    Some(p) => {
                        assert(anc_or_self(v, a as int, cur as int) == anc_or_self(
                            v,
                            a as int,
                            p as int,
                        ));
                    },
                    None => {
                        assert(!is_ancestor(v, a as int, cur as int));
                    },
                }
            }
            cur_opt = parent;
        }
        false
    }

    /// The registration pass: deliver `WidgetAdded` to every attached
    /// node that has not seen it yet (in traversal order), assign every
    /// node the exact membership set of its attached descendants, clear
    /// `children_changed` everywhere, and rebuild the focus chain as the
    /// attached, focusable nodes in traversal order. After it, layout
    /// and focus queries observe a consistent tree.
    pub fn register_children(&mut self) -> (r: Vec<TraceRecord>)
        requires
            old(self).wf(),
        ensures
            final(self).wf(),
            final(self)@.len() == old(self)@.len(),
            forall|i: int|
                0 <= i < old(self)@.len() ==> #[trigger] final(self)@[i] == (NodeView {
                    added: old(self)@[i].added || old(self)@[i].attached,
                    children_changed: false,
                    children: desc_set(old(self)@, i),
                    ..old(self)@[i]
                }),
            r@ == added_trace(old(self)@, old(self)@.len() as int),
            final(self).chain_spec() == focusables(old(self)@, old(self)@.len() as int),
            final(self).focus_spec() == old(self).focus_spec(),
    {
        let ghost pre = self@;
        let n = self.nodes.len();
        let mut i: usize = 0;
        while i < n
            invariant
                pre == old(self)@,
                wf_view(pre, old(self).focus_spec()),
                n == pre.len(),
                self@.len() == n,
                i <= n,
                forall|j: int|
                    0 <= j < n ==> #[trigger] self@[j] == (NodeView {
                        children: if j < i {
                            desc_set(pre, j)
                        } else {
                            pre[j].children
                        },
                        ..pre[j]
                    }),
                self.focus_spec() == old(self).focus_spec(),
                self.chain_spec() == old(self).chain_spec(),
            decreases n - i,
        {
            let mut cs = FastSet::new();
            proof {
                assert forall|k: int| 0 <= k < n implies (#[trigger] self@[k].parent)
                    == pre[k].parent && self@[k].attached == pre[k].attached by {}
                assert(parents_ok(self@));
                assert(cs@ =~= desc_set_upto(pre, i as int, i as int + 1)) by {
                    assert forall|x: u64|
                        !(#[trigger] desc_set_upto(pre, i as int, i as int + 1).contains(
                            x,
                        )) by {
                        if 0 <= x < i + 1 && is_ancestor(pre, i as int, x as int) {
                            lemma_ancestor_lt(pre, i as int, x as int);
                        }
                    }
                }
            }
            let mut d: usize = i + 1;
            while d < n
                invariant
                    pre == old(self)@,
                    n == pre.len(),
                    self@.len() == n,
                    i < n,
                    i < d <= n,
                    parents_ok(self@),
                    forall|k: int|
                        0 <= k < n ==> (#[trigger] self@[k].parent) == pre[k].parent
                            && self@[k].attached == pre[k].attached,
                    cs@ == desc_set_upto(pre, i as int, d as int),
                decreases n - d,
            {
                let anc = self.is_ancestor_exec(i, d);
                proof {
                    lemma_anc_same_parents(self@, pre, i as int, d as int);
                    assert(self@[d as int].attached == pre[d as int].attached);
                }
                let att = self.nodes[d].attached;
                proof {
                    assert(self@[d as int] == self.nodes@[d as int].nv(d as int));
                    assert(att == pre[d as int].attached);
                }
                let ghost cs_before = cs@;
                if att && anc {
                    cs.add(d as u64);
                }
                proof {
                    assert(cs@ =~= desc_set_upto(pre, i as int, d as int + 1));
                }
                d += 1;
            }
            let ghost before = self@;
            self.set_children_at(i, cs);
            proof {
                assert forall|j: int|
                    0 <= j < n implies #[trigger] self@[j] == (NodeView {
                        children: if j < i + 1 {
                            desc_set(pre, j)
                        } else {
                            pre[j].children
                        },
                        ..pre[j]
                    }) by {
                    if j != i {
                        assert(self@[j] == before[j]);
                    } else {
                        assert(self@[j] == (NodeView { children: cs@, ..before[j] }));
                        assert(cs@ == desc_set(pre, j));
                    }
                }
            }
            i += 1;
        }
        let ghost state_c = self@;
        let mut r: Vec<TraceRecord> = Vec::new();
        let mut i: usize = 0;
        while i < n
            invariant
                pre == old(self)@,
                n == pre.len(),
                self@.len() == n,
                i <= n,
                forall|j: int|
                    0 <= j < n ==> #[trigger] state_c[j] == (NodeView {
                        children: desc_set(pre, j),
                        ..pre[j]
                    }),
                forall|j: int|
                    0 <= j < n ==> #[trigger] self@[j] == (NodeView {
                        added: pre[j].added || (j < i && pre[j].attached),
                        children: desc_set(pre, j),
                        ..pre[j]
                    }),
                r@ == added_trace(pre, i as int),
                self.focus_spec() == old(self).focus_spec(),
                self.chain_spec() == old(self).chain_spec(),
            decreases n - i,
        {
            proof {
                assert(self@[i as int] == self.nodes@[i as int].nv(i as int));
            }
            let att = self.nodes[i].attached;
            let added = self.nodes[i].added;
            let ghost before = self@;
            if att && !added {
                self.set_added_at(i, true);
                r.push(TraceRecord { id: i as u64, rec: Record::L(LifeCycle::WidgetAdded) });
            }
            proof {
                assert(added_trace(pre, i as int + 1) == added_trace(pre, i as int) + (if pre[
                    i as int
                ].attached && !pre[i as int].added {
                    seq![
                        TraceRecord {
                            id: pre[i as int].id,
                            rec: Record::L(LifeCycle::WidgetAdded),
                        },
                    ]
                } else {
                    Seq::empty()
                }));
                assert(pre[i as int].id == i as u64);
                assert(r@ =~= added_trace(pre, i as int + 1));
                assert forall|j: int|
                    0 <= j < n implies #[trigger] self@[j] == (NodeView {
                        added: pre[j].added || (j < i + 1 && pre[j].attached),
                        children: desc_set(pre, j),
                        ..pre[j]
                    }) by {
                    if j != i {
                        assert(self@[j] == before[j]);
                    }
                }
            }
            i += 1;
        }
        let mut i: usize = 0;
        while i < n
            invariant
                pre == old(self)@,
                n == pre.len(),
                self@.len() == n,
                i <= n,
                forall|j: int|
                    0 <= j < n ==> #[trigger] self@[j] == (NodeView {
                        added: pre[j].added || pre[j].attached,
                        children_changed: if j < i {
                            false
                        } else {
                            pre[j].children_changed
                        },
                        children: desc_set(pre, j),
                        ..pre[j]
                    }),
                self.focus_spec() == old(self).focus_spec(),
                self.chain_spec() == old(self).chain_spec(),
            decreases n - i,
        {
            let ghost before = self@;
            self.set_cc_at(i, false);
            proof {
                assert forall|j: int|
                    0 <= j < n implies #[trigger] self@[j] == (NodeView {
                        added: pre[j].added || pre[j].attached,
                        children_changed: if j < i + 1 {
                            false
                        } else {
                            pre[j].children_changed
                        },
                        children: desc_set(pre, j),
                        ..pre[j]
                    }) by {
                    if j != i {
                        assert(self@[j] == before[j]);
                    } else {
                        assert(self@[j] == (NodeView { children_changed: false, ..before[j] }));
                    }
                }
            }
            i += 1;
        }
        let mut chain: Vec<u64> = Vec::new();
        let mut i: usize = 0;
        while i < n
            invariant
                pre == old(self)@,
                n == pre.len(),
                self@.len() == n,
                i <= n,
                forall|j: int|
                    0 <= j < n ==> #[trigger] self@[j] == (NodeView {
                        added: pre[j].added || pre[j].attached,
                        children_changed: false,
                        children: desc_set(pre, j),
                        ..pre[j]
                    }),
                chain@ == focusables(pre, i as int),
                self.focus_spec() == old(self).focus_spec(),
            decreases n - i,
        {
            proof {
                assert(self@[i as int] == self.nodes@[i as int].nv(i as int));
            }
            let att = self.nodes[i].attached;
            let foc = self.nodes[i].is_focusable;
            if att && foc {
                chain.push(i as u64);
            }
            proof {
                assert(focusables(pre, i as int + 1) == focusables(pre, i as int) + (if pre[
                    i as int
                ].attached && pre[i as int].is_focusable {
                    seq![pre[i as int].id]
                } else {
                    Seq::empty()
                }));
                assert(pre[i as int].id == i as u64);
                assert(chain@ =~= focusables(pre, i as int + 1));
            }
            i += 1;
        }
        self.focus_chain = chain;
        proof {
            assert forall|i: int|
                0 <= i < n implies same_core(pre[i], #[trigger] self@[i]) by {}
            lemma_wf_same_core(pre, self@, old(self).focus_spec());
        }
        r
    }
}

/// The first node in traversal order among the first `k` that requests
/// focus on seeing a command with selector `sel`.
pub open spec fn first_focus_req(v: Seq<NodeView>, sel: u64, k: int) -> Option<int>
    decreases k,
{
    if k <= 0 {
        None
    } else {
        match first_focus_req(v, sel, k - 1) {
            Some(c) => Some(c),
            None => if v[k - 1].attached && v[k - 1].takes_focus_on == Some(sel) {
                Some(k - 1)
            } else {
                None
            },
        }
    }
}

/// The command deliveries of a broadcast with selector `sel` over the
/// first `k` slots: every attached node, in traversal order.
pub open spec fn bcast_trace(v: Seq<NodeView>, sel: u64, k: int) -> Seq<TraceRecord>
    decreases k,
{
    if k <= 0 {
        Seq::empty()
    } else {
        bcast_trace(v, sel, k - 1) + (if v[k - 1].attached {
            seq![TraceRecord { id: v[k - 1].id, rec: Record::E(EventKind::Command(sel)) }]
        } else {
            Seq::empty()
        })
    }
}

/// The lifecycle deliveries made when focus moves to node `c`: the old
/// holder (if any) learns it lost focus before the new holder learns it
/// gained it; nothing is delivered when `c` already holds focus.
pub open spec fn focus_shift_trace(v: Seq<NodeView>, focus: Option<u64>, c: int) -> Seq<
    TraceRecord,
> {
    if focus == Some(v[c].id) {
        Seq::empty()
    } else {
        (match focus {
            Some(f) => seq![TraceRecord { id: f, rec: Record::L(LifeCycle::FocusChanged(false)) }],
            None => Seq::empty(),
        }) + seq![TraceRecord { id: v[c].id, rec: Record::L(LifeCycle::FocusChanged(true)) }]
    }
}

/// Node `i`'s focus flag after focus moves to node `c`.
pub open spec fn focus_after(v: Seq<NodeView>, focus: Option<u64>, c: int, i: int) -> bool {
    if focus == Some(v[c].id) {
        v[i].has_focus
    } else {
        i == c
    }
}


/// Moving focus to an attached node `c` preserves the tree invariants,
/// with `c` the new recorded holder.
proof fn lemma_wf_after_focus(pre: Seq<NodeView>, fin: Seq<NodeView>, pf: Option<u64>, c: int)
    requires
        wf_view(pre, pf),
        pre.len() <= u64::MAX,
        0 <= c < pre.len(),
        pre[c].attached,
        fin.len() == pre.len(),
        forall|i: int|
            0 <= i < pre.len() ==> #[trigger] fin[i] == (NodeView {
                has_focus: focus_after(pre, pf, c, i),
                ..pre[i]
            }),
    ensures
        wf_view(fin, Some(pre[c].id)),
{
    assert(pre[c].id == c as u64);
    if pf == Some(pre[c].id) {
        match pf {
            Some(fid) => {
                assert(pre[fid as int].has_focus);
                assert(pre[fid as int].id == fid);
                assert(fid as int == c);
                assert(fin[c].has_focus);
            },
            None => {},
        }
    } else {
        assert(fin[c].has_focus);
    }
    assert forall|i: int|
        0 <= i < fin.len() && (#[trigger] fin[i].has_focus) implies Some(pre[c].id) == Some(
        fin[i].id) by {
        if pf == Some(pre[c].id) {
            assert(pre[i].has_focus);
        } else {
            assert(i == c);
        }
    }
    assert forall|i: int|
        0 <= i < fin.len() && !(#[trigger] fin[i].attached) implies !fin[i].is_hot && !fin[
        i].is_active && !fin[i].has_focus by {
        if pf == Some(pre[c].id) {
            assert(!pre[i].has_focus);
        }
    }
}


/// The pointwise shape of the node states after a focus move: only the
/// old and new holders' flags change.
proof fn lemma_focus_update_shape(pre: Seq<NodeView>, fin: Seq<NodeView>, pf: Option<u64>, c: int)
    requires
        wf_view(pre, pf),
        pre.len() <= u64::MAX,
        0 <= c < pre.len(),
        pf != Some(pre[c].id),
        ({
            match pf {
                Some(f) => {
                    let mid = pre.update(
                        f as int,
                        NodeView { has_focus: false, ..pre[f as int] },
                    );
                    &&& 0 <= f < pre.len()
                    &&& fin == mid.update(c, NodeView { has_focus: true, ..mid[c] })
                },
                None => fin == pre.update(c, NodeView { has_focus: true, ..pre[c] }),
            }
        }),
    ensures
        fin.len() == pre.len(),
        forall|i: int|
            0 <= i < pre.len() ==> #[trigger] fin[i] == (NodeView {
                has_focus: focus_after(pre, pf, c, i),
                ..pre[i]
            }),
{
    assert forall|i: int|
        0 <= i < pre.len() implies #[trigger] fin[i] == (NodeView {
            has_focus: focus_after(pre, pf, c, i),
            ..pre[i]
        }) by {
        if i != c {
            match pf {
                Some(f) => {
                    if i != f as int {
                        assert(!pre[i].has_focus);
                    }
                },
                None => {
                    assert(!pre[i].has_focus);
                },
            }
        }
    }
}

impl WidgetTree {
    /// Move focus to the node in slot `c`, delivering `FocusChanged` to
    /// the previous holder and to the new one.
    fn grant_focus(&mut self, c: usize) -> (r: Vec<TraceRecord>)
        requires
            old(self).wf(),
            c < old(self)@.len(),
            old(self)@[c as int].attached,
        ensures
            final(self).wf(),
            final(self)@.len() == old(self)@.len(),
            r@ == focus_shift_trace(old(self)@, old(self).focus_spec(), c as int),
            forall|i: int|
                0 <= i < old(self)@.len() ==> #[trigger] final(self)@[i] == (NodeView {
                    has_focus: focus_after(old(self)@, old(self).focus_spec(), c as int, i),
                    ..old(self)@[i]
                }),
            final(self).focus_spec() == Some(old(self)@[c as int].id),
            final(self).chain_spec() == old(self).chain_spec(),
    {
        let ghost pre = self@;
        let ghost pf = self.focus_spec();
        let already = match self.focus {
            Some(f) => f == c as u64,
            None => false,
        };
        if already {
            let r: Vec<TraceRecord> = Vec::new();
            proof {
                assert(pf == Some(pre[c as int].id));
                assert forall|i: int|
                    0 <= i < pre.len() implies #[trigger] self@[i] == (NodeView {
                        has_focus: focus_after(pre, pf, c as int, i),
                        ..pre[i]
                    }) by {}
                assert(r@ =~= focus_shift_trace(pre, pf, c as int));
            }
            r
        } else {
            self.apply_focus_change(c)
        }
    }

    /// Clear the focus holder's flag and the recorded holder, and say
    /// who held focus.
    fn clear_focus_holder(&mut self) -> (r: Option<u64>)
        requires
            old(self).wf(),
        ensures
            final(self).wf(),
            final(self)@.len() == old(self)@.len(),
            r == old(self).focus_spec(),
            final(self).focus_spec() is None,
            forall|i: int|
                0 <= i < old(self)@.len() ==> #[trigger] final(self)@[i] == (NodeView {
                    has_focus: false,
                    ..old(self)@[i]
                }),
            final(self).chain_spec() == old(self).chain_spec(),
    {
        let ghost pre = self@;
        let ghost pf = self.focus_spec();
        let n = self.nodes.len();
        proof {
            assert(pre.len() == n);
        }
        let prev = self.focus;
        match prev {
            Some(f) => {
                proof {
                    assert(f < pre.len());
                    assert(f < n as u64);
                }
                let fi = f as usize;
                proof {
                    assert(fi as int == f as int);
                    assert(pre[fi as int].has_focus);
                }
                let ghost before = self@;
                self.set_has_focus_at(fi, false);
                self.focus = None;
                proof {
                    assert forall|i: int|
                        0 <= i < pre.len() implies #[trigger] self@[i] == (NodeView {
                            has_focus: false,
                            ..pre[i]
                        }) by {
                        if i != fi as int {
                            assert(self@[i] == pre[i]);
                            assert(pre[i].has_focus ==> pf == Some(pre[i].id));
                            assert(pre[i].id == i as u64);
                            assert(!pre[i].has_focus);
                        }
                    }
                    assert forall|i: int|
                        0 <= i < pre.len() implies same_core(
                            (NodeView { has_focus: false, ..pre[i] }),
                            #[trigger] self@[i],
                        ) by {}
                    assert(wf_view(self@, self.focus_spec()));
                }
            },
            None => {
                proof {
                    assert forall|i: int|
                        0 <= i < pre.len() implies #[trigger] self@[i] == (NodeView {
                            has_focus: false,
                            ..pre[i]
                        }) by {
                        assert(pre[i].has_focus ==> pf == Some(pre[i].id));
                        assert(!pre[i].has_focus);
                    }
                }
            },
        }
        prev
    }

    /// Clear the previous focus holder's flag, set the new holder's,
    /// and record it, delivering `FocusChanged` to both in that order.
    #[verifier::rlimit(100)]
    fn apply_focus_change(&mut self, c: usize) -> (r: Vec<TraceRecord>)
        requires
            old(self).wf(),
            c < old(self)@.len(),
            old(self)@[c as int].attached,
            old(self).focus_spec() != Some(old(self)@[c as int].id),
        ensures
            final(self).wf(),
            final(self)@.len() == old(self)@.len(),
            r@ == focus_shift_trace(old(self)@, old(self).focus_spec(), c as int),
            forall|i: int|
                0 <= i < old(self)@.len() ==> #[trigger] final(self)@[i] == (NodeView {
                    has_focus: focus_after(old(self)@, old(self).focus_spec(), c as int, i),
                    ..old(self)@[i]
                }),
            final(self).focus_spec() == Some(old(self)@[c as int].id),
            final(self).chain_spec() == old(self).chain_spec(),
    {
        let ghost pre = self@;
        let ghost pf = self.focus_spec();
        let n = self.nodes.len();
        proof {
            assert(pre.len() == n);
        }
        let mut r: Vec<TraceRecord> = Vec::new();
        let prev = self.clear_focus_holder();
        match prev {
            Some(f) => {
                r.push(TraceRecord { id: f, rec: Record::L(LifeCycle::FocusChanged(false)) });
            },
            None => {},
        }
        let ghost mid = self@;
        self.set_has_focus_at(c, true);
        self.focus = Some(c as u64);
        r.push(
            TraceRecord { id: c as u64, rec: Record::L(LifeCycle::FocusChanged(true)) },
        );
        proof {
            assert(pre[c as int].id == c as u64);
            assert(self.focus_spec() == Some(pre[c as int].id));
            assert forall|i: int|
                0 <= i < pre.len() implies #[trigger] self@[i] == (NodeView {
                    has_focus: focus_after(pre, pf, c as int, i),
                    ..pre[i]
                }) by {
                if i != c {
                    assert(self@[i] == mid[i]);
                }
            }
            match prev {
                Some(f) => {
                    assert(r@.len() == 2);
                    assert(r@[0] == (TraceRecord {
                        id: f,
                        rec: Record::L(LifeCycle::FocusChanged(false)),
                    }));
                    assert(r@[1] == (TraceRecord {
                        id: c as u64,
                        rec: Record::L(LifeCycle::FocusChanged(true)),
                    }));
                    assert(r@ =~= focus_shift_trace(pre, pf, c as int));
                },
                None => {
                    assert(r@.len() == 1);
                    assert(r@[0] == (TraceRecord {
                        id: c as u64,
                        rec: Record::L(LifeCycle::FocusChanged(true)),
                    }));
                    assert(r@ =~= focus_shift_trace(pre, pf, c as int));
                },
            }
            assert(pre.len() <= u64::MAX);
            lemma_wf_after_focus(pre, self@, pf, c as int);
        }
        r
    }

    /// Submit a command. An addressed command (`target` is the
    /// identifier of a node) reaches that node alone, and is silently
    /// dropped when the identifier is not attached; a broadcast
    /// (`target` is `None`) reaches every attached node in traversal
    /// order. A node whose focus-request selector matches requests
    /// focus; requests are collected during delivery and applied once
    /// afterwards, first request in traversal order winning.
    pub fn submit_command(&mut self, selector: u64, target: Option<u64>) -> (r: Vec<
        TraceRecord,
    >)
        requires
            old(self).wf(),
        ensures
            final(self).wf(),
            final(self)@.len() == old(self)@.len(),
            final(self).chain_spec() == old(self).chain_spec(),
            (match target {
                None => {
                    let pre = old(self)@;
                    let n = pre.len() as int;
                    match first_focus_req(pre, selector, n) {
                        Some(c) => {
                            &&& r@ == bcast_trace(pre, selector, n) + focus_shift_trace(
                                pre,
                                old(self).focus_spec(),
                                c,
                            )
                            &&& forall|i: int|
                                0 <= i < n ==> #[trigger] final(self)@[i] == (NodeView {
                                    has_focus: focus_after(
                                        pre,
                                        old(self).focus_spec(),
                                        c,
                                        i,
                                    ),
                                    ..pre[i]
                                })
                            &&& final(self).focus_spec() == Some(pre[c].id)
                        },
                        None => {
                            &&& r@ == bcast_trace(pre, selector, n)
                            &&& final(self)@ == pre
                            &&& final(self).focus_spec() == old(self).focus_spec()
                        },
                    }
                },
                Some(tid) => {
                    let pre = old(self)@;
                    let n = pre.len() as int;
                    if 0 <= tid < n && pre[tid as int].attached {
                        let hit = seq![
                            TraceRecord {
                                id: tid,
                                rec: Record::E(EventKind::Command(selector)),
                            },
                        ];
                        if pre[tid as int].takes_focus_on == Some(selector) {
                            &&& r@ == hit + focus_shift_trace(
                                pre,
                                old(self).focus_spec(),
                                tid as int,
                            )
                            &&& forall|i: int|
                                0 <= i < n ==> #[trigger] final(self)@[i] == (NodeView {
                                    has_focus: focus_after(
                                        pre,
                                        old(self).focus_spec(),
                                        tid as int,
                                        i,
                                    ),
                                    ..pre[i]
                                })
                            &&& final(self).focus_spec() == Some(pre[tid as int].id)
                        } else {
                            &&& r@ == hit
                            &&& final(self)@ == pre
                            &&& final(self).focus_spec() == old(self).focus_spec()
                        }
                    } else {
                        &&& r@ == Seq::<TraceRecord>::empty()
                        &&& final(self)@ == pre
                        &&& final(self).focus_spec() == old(self).focus_spec()
                    }
                },
            }),
    {
        let ghost pre = self@;
        let ghost pf = self.focus_spec();
        let n = self.nodes.len();
        let mut r: Vec<TraceRecord> = Vec::new();
        match target {
            None => {
                let mut cand: Option<usize> = None;
                let mut i: usize = 0;
                while i < n
                    invariant
                        pre == old(self)@,
                        wf_view(pre, pf),
                        pf == old(self).focus_spec(),
                        self@ == pre,
                        self.focus_spec() == pf,
                        self.chain_spec() == old(self).chain_spec(),
                        n == pre.len(),
                        i <= n,
                        r@ == bcast_trace(pre, selector, i as int),
                        (match cand {
                            Some(c) => Some(c as int),
                            None => None,
                        }) == first_focus_req(pre, selector, i as int),
                    decreases n - i,
                {
                    proof {
                        assert(self@[i as int] == self.nodes@[i as int].nv(i as int));
                        assert(pre[i as int].id == i as u64);
                    }
                    let att = self.nodes[i].attached;
                    if att {
                        r.push(
                            TraceRecord {
                                id: i as u64,
                                rec: Record::E(EventKind::Command(selector)),
                            },
                        );
                    }
                    let wants = match self.nodes[i].takes_focus_on {
                        Some(s) => s == selector,
                        None => false,
                    };
                    if cand.is_none() && att && wants {
                        cand = Some(i);
                    }
                    proof {
                        assert(r@ =~= bcast_trace(pre, selector, i as int + 1));
                    }
                    i += 1;
                }
                match cand {
                    Some(c) => {
                        proof {
                            lemma_first_focus_req_props(pre, selector, n as int, c as int);
                        }
                        let mut r2 = self.grant_focus(c);
                        r.append(&mut r2);
                        proof {
                            assert(r@ == bcast_trace(pre, selector, n as int)
                                + focus_shift_trace(pre, pf, c as int));
                        }
                    },
                    None => {},
                }
            },
            Some(tid) => {
                if tid < n as u64 {
                    let ti = tid as usize;
                    proof {
                        assert(self@[ti as int] == self.nodes@[ti as int].nv(ti as int));
                        assert(pre[ti as int].id == tid);
                    }
                    let att = self.nodes[ti].attached;
                    if att {
                        r.push(
                            TraceRecord {
                                id: tid,
                                rec: Record::E(EventKind::Command(selector)),
                            },
                        );
                        let wants = match self.nodes[ti].takes_focus_on {
                            Some(s) => s == selector,
                            None => false,
                        };
                        if wants {
                            let mut r2 = self.grant_focus(ti);
                            r.append(&mut r2);
                        } else {
                            proof {
                                assert(r@ =~= seq![
                                    TraceRecord {
                                        id: tid,
                                        rec: Record::E(EventKind::Command(selector)),
                                    },
                                ]);
                            }
                        }
                    }
                }
            },
        }
        r
    }
}

/// A first focus request is a valid, attached node whose selector
/// matches, and nothing before it requests focus.
pub proof fn lemma_first_focus_req_props(v: Seq<NodeView>, sel: u64, k: int, c: int)
    requires
        first_focus_req(v, sel, k) == Some(c),
    ensures
        0 <= c < k,
        v[c].attached,
        v[c].takes_focus_on == Some(sel),
        forall|j: int|
            0 <= j < c ==> !((#[trigger] v[j].attached) && v[j].takes_focus_on == Some(sel)),
    decreases k,
{
    if k > 0 {
        match first_focus_req(v, sel, k - 1) {
            Some(cc) => {
                lemma_first_focus_req_props(v, sel, k - 1, c);
            },
            None => {
                lemma_first_focus_req_none(v, sel, k - 1);
            },
        }
    }
}

/// When no node among the first `k` requests focus, none is attached
/// with a matching selector.
pub proof fn lemma_first_focus_req_none(v: Seq<NodeView>, sel: u64, k: int)
    requires
        first_focus_req(v, sel, k) is None,
    ensures
        forall|j: int|
            0 <= j < k ==> !((#[trigger] v[j].attached) && v[j].takes_focus_on == Some(sel)),
    decreases k,
{
    if k > 0 {
        lemma_first_focus_req_none(v, sel, k - 1);
    }
}

/// How many `HotChanged` deliveries for widget `id` a trace holds.
pub open spec fn hc_count(tr: Seq<TraceRecord>, id: u64) -> nat
    decreases tr.len(),
{
    if tr.len() == 0 {
        0
    } else {
        hc_count(tr.drop_last(), id) + (if tr.last().id == id && (match tr.last().rec {
            Record::L(LifeCycle::HotChanged(_)) => true,
            _ => false,
        }) {
            1nat
        } else {
            0nat
        })
    }
}

/// `hc_count` distributes over concatenation.
pub proof fn lemma_hc_count_append(t1: Seq<TraceRecord>, t2: Seq<TraceRecord>, id: u64)
    ensures
        hc_count(t1 + t2, id) == hc_count(t1, id) + hc_count(t2, id),
    decreases t2.len(),
{
    if t2.len() == 0 {
        assert(t1 + t2 =~= t1);
    } else {
        assert((t1 + t2).drop_last() =~= t1 + t2.drop_last());
        assert((t1 + t2).last() == t2.last());
        lemma_hc_count_append(t1, t2.drop_last(), id);
    }
}

/// Law: one pointer event delivers exactly one `HotChanged` to each node
/// whose hotness actually changes, and none to any other node — no
/// duplicate and no missing deliveries.
pub proof fn lemma_hot_changed_exactly_once(
    v: Seq<NodeView>,
    px: int,
    py: int,
    kind: EventKind,
    n: int,
    i: int,
)
    requires
        forall|k: int| 0 <= k < v.len() ==> (#[trigger] v[k].id) == k as u64,
        v.len() <= u64::MAX,
        0 <= i < v.len(),
        0 <= n <= v.len(),
    ensures
        hc_count(ptr_trace(v, px, py, kind, n), v[i].id) == if i < n && hot_changed_spec(
            v,
            px,
            py,
            i,
        ) {
            1nat
        } else {
            0nat
        },
    decreases n,
{
    if n > 0 {
        lemma_hot_changed_exactly_once(v, px, py, kind, n - 1, i);
        let head = ptr_trace(v, px, py, kind, n - 1);
        let part = node_ptr_part(v, px, py, kind, n - 1);
        lemma_hc_count_append(head, part, v[i].id);
        let hc: Seq<TraceRecord> = if hot_changed_spec(v, px, py, n - 1) {
            seq![
                TraceRecord {
                    id: v[n - 1].id,
                    rec: Record::L(LifeCycle::HotChanged(new_hot_spec(v, px, py, n - 1))),
                },
            ]
        } else {
            Seq::empty()
        };
        let ev: Seq<TraceRecord> = if receives_pointer(v, px, py, n - 1) {
            seq![TraceRecord { id: v[n - 1].id, rec: Record::E(kind) }]
        } else {
            Seq::empty()
        };
        lemma_hc_count_append(hc, ev, v[i].id);
        if receives_pointer(v, px, py, n - 1) {
            assert(ev.drop_last() =~= Seq::<TraceRecord>::empty());
            assert(hc_count(ev.drop_last(), v[i].id) == 0);
            assert(ev.last() == (TraceRecord { id: v[n - 1].id, rec: Record::E(kind) }));
            assert(hc_count(ev, v[i].id) == 0);
        }
        if hot_changed_spec(v, px, py, n - 1) {
            assert(hc.drop_last() =~= Seq::<TraceRecord>::empty());
            assert(hc_count(hc.drop_last(), v[i].id) == 0);
            assert(hc.last() == (TraceRecord {
                id: v[n - 1].id,
                rec: Record::L(LifeCycle::HotChanged(new_hot_spec(v, px, py, n - 1))),
            }));
            if i == n - 1 {
                assert(hc_count(hc, v[i].id) == 1);
            } else {
                assert(v[n - 1].id == (n - 1) as u64);
                assert(v[i].id == i as u64);
                assert(v[n - 1].id != v[i].id);
                assert(hc_count(hc, v[i].id) == 0);
            }
        }
    }
}

/// Law: a hot node's parent is hot, in every reachable tree — hotness
/// propagates only down an unbroken chain from the root.
pub proof fn lemma_hot_implies_parent_hot(t: WidgetTree, i: int)
    requires
        t.wf(),
        0 < i < t@.len(),
        t@[i].is_hot,
    ensures
        t@[i].parent is Some,
        t@[t@[i].parent.unwrap() as int].is_hot,
{
}

/// Law: at most one node holds active capture, in every reachable tree.
pub proof fn lemma_at_most_one_active(t: WidgetTree, i: int, j: int)
    requires
        t.wf(),
        0 <= i < t@.len(),
        0 <= j < t@.len(),
        t@[i].is_active,
        t@[j].is_active,
    ensures
        i == j,
{
}

/// Law: at most one node holds focus, in every reachable tree.
pub proof fn lemma_at_most_one_focus(t: WidgetTree, i: int, j: int)
    requires
        t.wf(),
        t@.len() <= u64::MAX,
        0 <= i < t@.len(),
        0 <= j < t@.len(),
        t@[i].has_focus,
        t@[j].has_focus,
    ensures
        i == j,
{
    assert(t.focus_spec() == Some(t@[i].id));
    assert(t.focus_spec() == Some(t@[j].id));
    assert(t@[i].id == i as u64);
    assert(t@[j].id == j as u64);
}

/// Law: when several nodes request focus during one broadcast, the
/// first in traversal order is the one the pass grants focus to.
pub proof fn lemma_first_focus_request_wins(v: Seq<NodeView>, sel: u64, i: int, j: int)
    requires
        0 <= i < j < v.len(),
        v[i].attached,
        v[i].takes_focus_on == Some(sel),
        v[j].attached,
        v[j].takes_focus_on == Some(sel),
        forall|k: int|
            0 <= k < i ==> !((#[trigger] v[k].attached) && v[k].takes_focus_on == Some(sel)),
    ensures
        first_focus_req(v, sel, v.len() as int) == Some(i),
{
    lemma_first_focus_req_lower(v, sel, v.len() as int, i);
}

/// A focus request at `i`, with none before it, makes `i` the first
/// request in any window that contains it.
proof fn lemma_first_focus_req_lower(v: Seq<NodeView>, sel: u64, k: int, i: int)
    requires
        0 <= i < k <= v.len(),
        v[i].attached,
        v[i].takes_focus_on == Some(sel),
        forall|m: int|
            0 <= m < i ==> !((#[trigger] v[m].attached) && v[m].takes_focus_on == Some(sel)),
    ensures
        first_focus_req(v, sel, k) == Some(i),
    decreases k,
{
    if k - 1 == i {
        lemma_first_focus_req_all_none(v, sel, i);
    } else {
        lemma_first_focus_req_lower(v, sel, k - 1, i);
    }
}

/// With no request among the first `k` nodes, the scan finds none.
proof fn lemma_first_focus_req_all_none(v: Seq<NodeView>, sel: u64, k: int)
    requires
        0 <= k <= v.len(),
        forall|m: int|
            0 <= m < k ==> !((#[trigger] v[m].attached) && v[m].takes_focus_on == Some(sel)),
    ensures
        first_focus_req(v, sel, k) is None,
    decreases k,
{
    if k > 0 {
        lemma_first_focus_req_all_none(v, sel, k - 1);
    }
}

impl WidgetTree {
    /// Record that the node in slot `idx` asked to be repainted.
    pub fn request_paint(&mut self, idx: usize)
        requires
            old(self).wf(),
            idx < old(self)@.len(),
        ensures
            final(self).wf(),
            final(self)@ == old(self)@.update(
                idx as int,
                NodeView { needs_paint: true, ..old(self)@[idx as int] },
            ),
            final(self).focus_spec() == old(self).focus_spec(),
            final(self).chain_spec() == old(self).chain_spec(),
    {
        let ghost pre = self@;
        self.set_needs_paint_at(idx, true);
        proof {
            assert forall|i: int|
                0 <= i < pre.len() implies same_core(pre[i], #[trigger] self@[i]) by {}
            lemma_wf_same_core(pre, self@, old(self).focus_spec());
        }
    }

    /// Record that the node in slot `idx` asked for a new layout pass.
    pub fn request_layout(&mut self, idx: usize)
        requires
            old(self).wf(),
            idx < old(self)@.len(),
        ensures
            final(self).wf(),
            final(self)@ == old(self)@.update(
                idx as int,
                NodeView { needs_layout: true, ..old(self)@[idx as int] },
            ),
            final(self).focus_spec() == old(self).focus_spec(),
            final(self).chain_spec() == old(self).chain_spec(),
    {
        let ghost pre = self@;
        self.set_needs_layout_at(idx, true);
        proof {
            assert forall|i: int|
                0 <= i < pre.len() implies same_core(pre[i], #[trigger] self@[i]) by {}
            lemma_wf_same_core(pre, self@, old(self).focus_spec());
        }
    }

    /// Assign the bounds the parent computed for the node in slot `idx`
    /// during layout; the stored rect is what hotness testing and paint
    /// clipping use.
    pub fn set_layout_rect(&mut self, idx: usize, rect: WidgetRect)
        requires
            old(self).wf(),
            idx < old(self)@.len(),
            rect.wf(),
        ensures
            final(self).wf(),
            final(self)@ == old(self)@.update(
                idx as int,
                NodeView { rect, ..old(self)@[idx as int] },
            ),
            final(self).focus_spec() == old(self).focus_spec(),
            final(self).chain_spec() == old(self).chain_spec(),
    {
        let ghost pre = self@;
        self.set_rect_at(idx, rect);
        proof {
            let fin = self@;
            let fc = old(self).focus_spec();
            assert forall|i: int|
                0 <= i < fin.len() implies (#[trigger] fin[i].rect).wf() by {
                if i != idx {
                    assert(fin[i] == pre[i]);
                }
            }
            assert(wf_view(fin, fc));
        }
    }
}

/// One parent step extends ancestry: an ancestor-or-self of a node's
/// parent is a proper ancestor of the node.
pub proof fn lemma_anc_step_down(v: Seq<NodeView>, a: int, i: int)
    requires
        0 < i < v.len(),
        v[i].parent is Some,
        v[i].parent.unwrap() < i,
        anc_or_self(v, a, v[i].parent.unwrap() as int),
    ensures
        is_ancestor(v, a, i),
{
}

impl WidgetTree {
    /// Clear every live flag of slot `i` and detach it, leaving the rest
    /// of its state as it was.
    fn quiesce_at(&mut self, i: usize)
        requires
            i < old(self)@.len(),
        ensures
            final(self)@ == old(self)@.update(
                i as int,
                NodeView {
                    attached: false,
                    is_hot: false,
                    is_active: false,
                    has_focus: false,
                    ..old(self)@[i as int]
                },
            ),
            final(self).focus_spec() == old(self).focus_spec(),
            final(self).chain_spec() == old(self).chain_spec(),
    {
        self.set_attached_at(i, false);
        self.set_is_hot_at(i, false);
        self.set_is_active_at(i, false);
        self.set_has_focus_at(i, false);
        proof {
            let target = old(self)@.update(
                i as int,
                NodeView {
                    attached: false,
                    is_hot: false,
                    is_active: false,
                    has_focus: false,
                    ..old(self)@[i as int]
                },
            );
            assert forall|k: int| 0 <= k < self@.len() implies self@[k] == target[k] by {}
            assert(self@ =~= target);
        }
    }

    /// Detach the subtree rooted in slot `idx`: every node in it loses
    /// hotness, capture and focus and takes no further part in
    /// dispatch; a detached focus holder is retired; and the structural
    /// change marks `children_changed` from the parent up to the root.
    /// Identifiers are never reused: the slots stay.
    pub fn detach_subtree(&mut self, idx: usize)
        requires
            old(self).wf(),
            0 < idx < old(self)@.len(),
        ensures
            final(self).wf(),
            final(self)@.len() == old(self)@.len(),
            forall|i: int|
                0 <= i < old(self)@.len() ==> #[trigger] final(self)@[i] == (NodeView {
                    attached: old(self)@[i].attached && !anc_or_self(old(self)@, idx as int, i),
                    is_hot: old(self)@[i].is_hot && !anc_or_self(old(self)@, idx as int, i),
                    is_active: old(self)@[i].is_active && !anc_or_self(
                        old(self)@,
                        idx as int,
                        i,
                    ),
                    has_focus: old(self)@[i].has_focus && !anc_or_self(
                        old(self)@,
                        idx as int,
                        i,
                    ),
                    children_changed: old(self)@[i].children_changed || anc_or_self(
                        old(self)@,
                        i,
                        old(self)@[idx as int].parent.unwrap() as int,
                    ),
                    ..old(self)@[i]
                }),
            final(self).focus_spec() == (match old(self).focus_spec() {
                Some(f) => if anc_or_self(old(self)@, idx as int, f as int) {
                    None
                } else {
                    Some(f)
                },
                None => None,
            }),
            final(self).chain_spec() == old(self).chain_spec(),
    {
        let ghost pre = self@;
        let ghost pf = self.focus_spec();
        let n = self.nodes.len();
        let mut flags: Vec<bool> = Vec::new();
        let mut d: usize = 0;
        while d < n
            invariant
                pre == old(self)@,
                self@ == pre,
                wf_view(pre, pf),
                idx < n,
                n == pre.len(),
                d <= n,
                flags@.len() == d,
                forall|j: int|
                    0 <= j < d ==> #[trigger] flags@[j] == anc_or_self(pre, idx as int, j),
            decreases n - d,
        {
            let f = if d < idx {
                proof {
                    if is_ancestor(pre, idx as int, d as int) {
                        lemma_ancestor_lt(pre, idx as int, d as int);
                    }
                }
                false
            } else {
                self.is_ancestor_exec(idx, d)
            };
            flags.push(f);
            d += 1;
        }
        let mut d: usize = 0;
        while d < n
            invariant
                pre == old(self)@,
                wf_view(pre, pf),
                idx < n,
                n == pre.len(),
                self@.len() == n,
                d <= n,
                flags@.len() == n,
                forall|j: int|
                    0 <= j < n ==> #[trigger] flags@[j] == anc_or_self(pre, idx as int, j),
                forall|j: int|
                    0 <= j < n ==> #[trigger] self@[j] == (NodeView {
                        attached: pre[j].attached && !(j < d && anc_or_self(
                            pre,
                            idx as int,
                            j,
                        )),
                        is_hot: pre[j].is_hot && !(j < d && anc_or_self(pre, idx as int, j)),
                        is_active: pre[j].is_active && !(j < d && anc_or_self(
                            pre,
                            idx as int,
                            j,
                        )),
                        has_focus: pre[j].has_focus && !(j < d && anc_or_self(
                            pre,
                            idx as int,
                            j,
                        )),
                        ..pre[j]
                    }),
                self.focus_spec() == pf,
                self.chain_spec() == old(self).chain_spec(),
            decreases n - d,
        {
            let ghost before = self@;
            if flags[d] {
                self.quiesce_at(d);
            }
            proof {
                assert forall|j: int|
                    0 <= j < n implies #[trigger] self@[j] == (NodeView {
                        attached: pre[j].attached && !(j < d + 1 && anc_or_self(
                            pre,
                            idx as int,
                            j,
                        )),
                        is_hot: pre[j].is_hot && !(j < d + 1 && anc_or_self(
                            pre,
                            idx as int,
                            j,
                        )),
                        is_active: pre[j].is_active && !(j < d + 1 && anc_or_self(
                            pre,
                            idx as int,
                            j,
                        )),
                        has_focus: pre[j].has_focus && !(j < d + 1 && anc_or_self(
                            pre,
                            idx as int,
                            j,
                        )),
                        ..pre[j]
                    }) by {
                    if j != d {
                        assert(self@[j] == before[j]);
                    }
                }
            }
            d += 1;
        }
        match self.focus {
            Some(f) => {
                proof {
                    assert(f < pre.len());
                    assert(f < n as u64);
                }
                let fi = f as usize;
                if flags[fi] {
                    self.focus = None;
                }
            },
            None => {},
        }
        let ghost mid = self@;
        proof {
            assert(wf_view(mid, self.focus_spec())) by {
                assert forall|i: int|
                    0 < i < mid.len() && (#[trigger] mid[i].is_hot) implies mid[mid[
                i].parent.unwrap() as int].is_hot by {
                    let p = pre[i].parent.unwrap() as int;
                    if anc_or_self(pre, idx as int, p) {
                        lemma_anc_step_down(pre, idx as int, i);
                    }
                }
                assert forall|i: int|
                    0 < i < mid.len() && (#[trigger] mid[i].attached) implies mid[mid[
                i].parent.unwrap() as int].attached by {
                    let p = pre[i].parent.unwrap() as int;
                    if anc_or_self(pre, idx as int, p) {
                        lemma_anc_step_down(pre, idx as int, i);
                    }
                }
                assert(mid.len() > 0 ==> mid[0].attached) by {
                    if is_ancestor(pre, idx as int, 0) {
                        lemma_ancestor_lt(pre, idx as int, 0);
                    }
                }
                match self.focus_spec() {
                    Some(f) => {
                        assert(pf == Some(f));
                        assert(pre[f as int].has_focus);
                        assert(!anc_or_self(pre, idx as int, f as int));
                        assert(mid[f as int].attached && mid[f as int].has_focus);
                    },
                    None => {},
                }
            }
        }
        let parent = self.parent_of(idx);
        let p = match parent {
            Some(p) => p,
            None => 0,
        };
        proof {
            assert(pre[idx as int].parent == Some(p));
        }
        self.mark_chain(p);
        proof {
            assert forall|i: int|
                anc_or_self(mid, i, p as int) == anc_or_self(pre, i, p as int) by {
                lemma_anc_same_parents(mid, pre, i, p as int);
            }
        }
    }
}

} // verus!
