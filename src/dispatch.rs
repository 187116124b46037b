//! Sending an event down the tree, and gathering what it left behind.
use crate::context::ElementCtx;
use crate::bloom::Bloom;
use crate::constraints::{Point, Size};
use crate::event::{
    damaged, focus_resolution, plan_after_event, resolve_focus, route_event, routed, AfterEvent,
    Event, FocusUpdate, Handled,
};
use crate::id::ChildId;
use crate::cursor::Slot;
use crate::node::{merged, ChildState, CursorIcon, CursorRequest, NodeRequests};
use crate::tree::{
    holds_id, holds_in, lemma_bloom_bits_same, lemma_filter_covers, lemma_tree_ok, node_ok, tree_ok,
    ids_at_most, lemma_same_ids, lemma_same_ids_bound, lemma_same_ids_holds, lemma_same_ids_refl,
    lemma_same_ids_trans, same_ids, LifeCycle, Node, RenderObject, Scope, Tree,
};
use vstd::prelude::*;

verus! {

/// The hot flag of a node once `event` went by: a pointer event sets it to
/// whether it reached the node; the pointer leaving clears it; any other
/// event leaves it.
pub open spec fn hot_after(was: bool, event: Event, reached: bool) -> bool {
    match event {
        Event::MouseDown(_) | Event::MouseUp(_) | Event::MouseMove(_) => reached,
        Event::MouseLeave => false,
        _ => was,
    }
}

fn update_hot(was: bool, event: &Event, reached: bool) -> (r: bool)
    ensures
        r == hot_after(was, *event, reached),
{
    match event {
        Event::MouseDown(_) | Event::MouseUp(_) | Event::MouseMove(_) => reached,
        Event::MouseLeave => false,
        _ => was,
    }
}

/// A node whose state went from `before` to `after` had its turn at
/// `event`: it kept its place and extent, and its hot flag follows
/// `hot_after`.
pub open spec fn visited(before: ChildState, after: ChildState, event: Event) -> bool {
    &&& after.id == before.id
    &&& after.children == before.children
    &&& after.origin == before.origin
    &&& after.size == before.size
    &&& after.is_hot == hot_after(before.is_hot, event, routed(event, before.origin, before.size) is Some)
}

/// A node's cursor request once its descendants had their say: its own
/// request if it overrides theirs or they made none, theirs otherwise.
fn settle_cursor(own: Option<CursorRequest>, below: Option<CursorRequest>) -> (r: Option<CursorRequest>)
    ensures
        r == (match own {
            Some(c) => if c.overriding || below is None {
                own
            } else {
                below
            },
            None => below,
        }),
{
    match own {
        Some(c) => if c.overriding || below.is_none() {
            own
        } else {
            below
        },
        None => below,
    }
}

/// Records a node object's answer to an event: whether it handled the
/// event goes into the node's state, and an emitted action replaces the
/// node's pending one and asks for another build pass; nothing else
/// changes. Returns whether the object handled the event.
pub fn apply_answer<A>(state: &mut ChildState, action: &mut Option<A>, answer: (Handled, Option<A>)) -> (r:
    bool)
    ensures
        r == answer.0.0,
        match answer.1 {
            Some(a) => {
                &&& *final(action) == Some(a)
                &&& *final(state) == (ChildState {
                    handled: answer.0.0,
                    requests: NodeRequests { requires_im_pass: true, ..old(state).requests },
                    ..*old(state)
                })
            },
            None => *final(action) == *old(action) && *final(state) == (ChildState {
                handled: answer.0.0,
                ..*old(state)
            }),
        },
{
    let (h, act) = answer;
    state.handled = h.0;
    if let Some(a) = act {
        *action = Some(a);
        state.requests.requires_im_pass = true;
    }
    h.0
}

/// Gives `node` its own turn at `event`: its per-event requests are
/// cleared and its hot flag is updated (its object told if that changed).
/// If the event reaches the node and no node has handled it yet
/// (`already`), its object reacts and its answer is recorded
/// (`apply_answer`). Returns the event in the node's coordinates when it
/// reached the node, and whether the object handled it.
fn visit_own<W: RenderObject<A>, T, M, A>(node: &mut Node<W, T, M, A>, event: &Event, already: bool) -> (r: (
    Option<Event>,
    bool,
))
    ensures
        visited(old(node).state, final(node).state, *event),
        final(node).children == old(node).children,
        r.0 == routed(*event, old(node).state.origin, old(node).state.size),
        r.0 is None || already ==> !r.1 && final(node).action == old(node).action,
        final(node).state.handled == r.1,
{
    node.state.handled = false;
    node.state.request_focus = None;
    node.state.cursor = None;
    let local = route_event(event, node.state.origin, node.state.size);
    let was_hot = node.state.is_hot;
    node.state.is_hot = update_hot(was_hot, event, local.is_some());
    if node.state.is_hot != was_hot {
        let mut ctx = ElementCtx::for_state(&node.state);
        node.object.lifecycle(&mut ctx, &LifeCycle::HotChanged(node.state.is_hot));
        ctx.apply_to_state(&mut node.state);
    }
    match local {
        Some(l) => {
            node.state.has_active = false;
            if already {
                return (Some(l), false);
            }
            let mut ctx = ElementCtx::for_state(&node.state);
            let answer = node.object.event(&mut ctx, &l);
            ctx.apply_to_state(&mut node.state);
            let h = apply_answer(&mut node.state, &mut node.action, answer);
            (Some(l), h)
        },
        None => (None, false),
    }
}

/// The owner's state once the states of `s`'s nodes, in order, were merged
/// into `owner`.
pub open spec fn merged_all<W, T, M, A>(owner: ChildState, s: Seq<Slot<Node<W, T, M, A>>>) -> ChildState
    decreases s.len(),
{
    if s.len() == 0 {
        owner
    } else {
        merged(merged_all(owner, s.drop_last()), s.last().item.state)
    }
}

/// Merging keeps the owner's own identity, place, extent, hot and active
/// flags and descendant filter.
pub proof fn lemma_merged_all_keeps<W, T, M, A>(owner: ChildState, s: Seq<Slot<Node<W, T, M, A>>>)
    ensures
        merged_all(owner, s).id == owner.id,
        merged_all(owner, s).origin == owner.origin,
        merged_all(owner, s).size == owner.size,
        merged_all(owner, s).is_hot == owner.is_hot,
        merged_all(owner, s).is_active == owner.is_active,
        merged_all(owner, s).children == owner.children,
        merged_all(owner, s).handled == owner.handled,
    decreases s.len(),
{
    if s.len() > 0 {
        lemma_merged_all_keeps(owner, s.drop_last());
    }
}

/// `event` reaches `n`, and `n`'s object handled it, or the event, moved
/// into `n`'s coordinates, was handled under `n`.
pub open spec fn node_handled<W, T, M, A>(n: Node<W, T, M, A>, event: Event) -> bool {
    &&& routed(event, n.state.origin, n.state.size) is Some
    &&& (n.state.handled || handled_in(n.children, routed(event, n.state.origin, n.state.size)->Some_0))
}

/// Some node of `s` that `event` reaches was handled there or under it
/// (`node_handled`).
pub open spec fn handled_in<W, T, M, A>(s: Scope<W, T, M, A>, event: Event) -> bool
    decreases s,
{
    handled_upto(s.renders@, s.renders@.len() as int, s, event)
}

/// `handled_in` over the first `k` nodes of `s` (`rs` is `s.renders@`).
pub open spec fn handled_upto<W, T, M, A>(rs: Seq<Slot<Node<W, T, M, A>>>, k: int, s: Scope<W, T, M, A>, event: Event) -> bool
    decreases s, k,
{
    if k <= 0 || rs != s.renders@ || k > rs.len() {
        false
    } else {
        handled_upto(rs, k - 1, s, event) || (routed(
            event,
            rs[k - 1].item.state.origin,
            rs[k - 1].item.state.size,
        ) is Some && (rs[k - 1].item.state.handled || handled_in(
            rs[k - 1].item.children,
            routed(event, rs[k - 1].item.state.origin, rs[k - 1].item.state.size)->Some_0,
        )))
    }
}

proof fn lemma_handled_upto<W, T, M, A>(s: Scope<W, T, M, A>, k: int, event: Event)
    requires
        0 <= k <= s.renders@.len(),
    ensures
        handled_upto(s.renders@, k, s, event) <==> exists|i: int|
            0 <= i < k && #[trigger] node_handled(s.renders@[i].item, event),
    decreases k,
{
    if k > 0 {
        lemma_handled_upto(s, k - 1, event);
        if node_handled(s.renders@[k - 1].item, event) {
            assert(exists|i: int| 0 <= i < k && #[trigger] node_handled(s.renders@[i].item, event));
        }
    }
}

/// `handled_in` node by node.
pub proof fn lemma_handled_in<W, T, M, A>(s: Scope<W, T, M, A>, event: Event)
    ensures
        handled_in(s, event) <==> exists|i: int|
            0 <= i < s.renders@.len() && #[trigger] node_handled(s.renders@[i].item, event),
{
    lemma_handled_upto(s, s.renders@.len() as int, event);
}

/// Some node of `s` is reached by `event`.
pub open spec fn reaches_some<W, T, M, A>(s: Seq<Slot<Node<W, T, M, A>>>, event: Event) -> bool {
    exists|i: int|
        0 <= i < s.len() && (#[trigger] routed(event, s[i].item.state.origin, s[i].item.state.size)) is Some
}

/// Sends `event`, in the coordinates of the scope's owner, to every node
/// of `scope` in order, depth first; `already` says whether a node before
/// these handled it.
///
/// Every node has its turn (`visited`): its hot flag follows the event.
/// A node the event reaches gets it moved into its own coordinates
/// (`route_event`); its object reacts, before its children, unless the
/// event was handled already, and the event then goes on to the node's
/// children. A node the event does not reach keeps its children and its
/// pending action. Each node's state is merged into `owner` after its
/// turn (`merged_all`), with its focus and cursor requests those of this
/// event alone; a node's own cursor request gives way to the first one of
/// its hot or active descendants, unless it overrides them. The result is
/// handled when it was already, or when some node reached handled it.
pub fn dispatch_event<W: RenderObject<A>, T, M, A>(
    scope: &mut Scope<W, T, M, A>,
    owner: &mut ChildState,
    event: &Event,
    already: bool,
) -> (r: Handled)
    ensures
        final(scope).renders@.len() == old(scope).renders@.len(),
        forall|i: int|
            0 <= i < old(scope).renders@.len() ==> (#[trigger] final(scope).renders@[i]).key == old(
                scope,
            ).renders@[i].key && final(scope).renders@[i].dead == old(scope).renders@[i].dead,
        forall|i: int|
            0 <= i < old(scope).renders@.len() ==> #[trigger] visited(
                old(scope).renders@[i].item.state,
                final(scope).renders@[i].item.state,
                *event,
            ),
        forall|i: int|
            0 <= i < old(scope).renders@.len() && routed(
                *event,
                old(scope).renders@[i].item.state.origin,
                old(scope).renders@[i].item.state.size,
            ) is None ==> (#[trigger] final(scope).renders@[i]).item.children == old(
                scope,
            ).renders@[i].item.children && final(scope).renders@[i].item.action == old(
                scope,
            ).renders@[i].item.action,
        forall|i: int, j: int|
            0 <= i < old(scope).renders@.len() && 0 <= j < old(scope).renders@[i].item.children.renders@.len()
                && routed(*event, old(scope).renders@[i].item.state.origin, old(scope).renders@[i].item.state.size) is Some ==> visited(
                #[trigger] old(scope).renders@[i].item.children.renders@[j].item.state,
                #[trigger] final(scope).renders@[i].item.children.renders@[j].item.state,
                routed(*event, old(scope).renders@[i].item.state.origin, old(scope).renders@[i].item.state.size)->Some_0,
            ),
        final(scope).states@ == old(scope).states@,
        tree_ok(*old(scope)) ==> tree_ok(*final(scope)),
        same_ids(*old(scope), *final(scope)),
        *final(owner) == merged_all(*old(owner), final(scope).renders@),
        r.0 == (already || handled_in(*final(scope), *event)),
    decreases *old(scope),
{
    let mut handled = already;
    let mut i: usize = 0;
    let ghost owner0 = *owner;
    while i < scope.renders.len()
        invariant
            i <= scope.renders@.len(),
            scope.renders@.len() == old(scope).renders@.len(),
            forall|j: int|
                0 <= j < old(scope).renders@.len() ==> (#[trigger] scope.renders@[j]).key == old(
                    scope,
                ).renders@[j].key && scope.renders@[j].dead == old(scope).renders@[j].dead
                    && scope.renders@[j].item.state.id == old(scope).renders@[j].item.state.id
                    && scope.renders@[j].item.state.children == old(scope).renders@[j].item.state.children,
            tree_ok(*old(scope)) ==> forall|j: int|
                0 <= j < i ==> node_ok((#[trigger] scope.renders@[j]).item),
            forall|j: int|
                i <= j < old(scope).renders@.len() ==> (#[trigger] scope.renders@[j]) == old(
                    scope,
                ).renders@[j],
            scope.states@ == old(scope).states@,
            forall|j: int|
                0 <= j < i ==> #[trigger] visited(
                    old(scope).renders@[j].item.state,
                    scope.renders@[j].item.state,
                    *event,
                ),
            forall|j: int|
                0 <= j < i && routed(
                    *event,
                    old(scope).renders@[j].item.state.origin,
                    old(scope).renders@[j].item.state.size,
                ) is None ==> (#[trigger] scope.renders@[j]).item.children == old(
                    scope,
                ).renders@[j].item.children && scope.renders@[j].item.action == old(
                    scope,
                ).renders@[j].item.action,
            forall|j: int, k: int|
                0 <= j < i && 0 <= k < old(scope).renders@[j].item.children.renders@.len()
                    && routed(*event, old(scope).renders@[j].item.state.origin, old(scope).renders@[j].item.state.size) is Some ==> visited(
                    #[trigger] old(scope).renders@[j].item.children.renders@[k].item.state,
                    #[trigger] scope.renders@[j].item.children.renders@[k].item.state,
                    routed(*event, old(scope).renders@[j].item.state.origin, old(scope).renders@[j].item.state.size)->Some_0,
                ),
            *owner == merged_all(owner0, scope.renders@.take(i as int)),
            forall|j: int|
                0 <= j < i ==> same_ids(
                    #[trigger] old(scope).renders@[j].item.children,
                    scope.renders@[j].item.children,
                ),
            owner0 == *old(owner),
            handled == (already || exists|j: int|
                0 <= j < i && #[trigger] node_handled(scope.renders@[j].item, *event)),
        decreases scope.renders@.len() - i,
    {
        let ghost prev = scope.renders@;
        let ghost prev_owner = *owner;
        let ghost hp = handled;
        let node = &mut scope.renders[i].item;
        let (pass_on, own_handled) = visit_own(node, event, handled);
        if own_handled {
            handled = true;
        }
        if let Some(local) = pass_on {
            let own = node.state.cursor;
            node.state.cursor = None;
            let ghost before_children = node.state;
            let inner = dispatch_event(&mut node.children, &mut node.state, &local, handled);
            proof {
                lemma_merged_all_keeps(before_children, node.children.renders@);
            }
            handled = inner.0;
            node.state.cursor = settle_cursor(own, node.state.cursor);
        }
        owner.merge_up(&node.state);
        proof {
            let o = old(scope).renders@[i as int].item.state;
            let oc = old(scope).renders@[i as int].item.children;
            let nc = scope.renders@[i as int].item.children;
            if pass_on is Some {
                assert forall|k: int| 0 <= k < nc.renders@.len() implies (#[trigger] nc.renders@[k]).item.state.id
                    == oc.renders@[k].item.state.id && nc.renders@[k].item.state.children
                    == oc.renders@[k].item.state.children by {
                    assert(visited(oc.renders@[k].item.state, nc.renders@[k].item.state, pass_on->Some_0));
                }
            }
            if pass_on is Some {
                assert(routed(*event, o.origin, o.size) is Some);
            }
            let t = scope.renders@.take(i as int + 1);
            assert(t.drop_last() =~= scope.renders@.take(i as int));
            assert(t.last() == scope.renders@[i as int]);
            assert(scope.renders@.take(i as int) =~= prev.take(i as int));
            assert(*owner == merged(prev_owner, scope.renders@[i as int].item.state));
            assert(*owner == merged_all(owner0, t));
            assert forall|j: int| 0 <= j < i implies #[trigger] scope.renders@[j] == prev[j] by {}
            let fin = scope.renders@[i as int].item;
            assert(fin.state.origin == o.origin && fin.state.size == o.size);
            if pass_on is Some {
                assert(fin.state.handled == own_handled);
            } else {
                assert(!node_handled(fin, *event));
            }
            assert(handled == (hp || node_handled(fin, *event)));
            if hp && !already {
                let w = choose|j: int| 0 <= j < i && #[trigger] node_handled(prev[j].item, *event);
                assert(scope.renders@[w] == prev[w]);
                assert(node_handled(scope.renders@[w].item, *event));
            }
            if node_handled(fin, *event) {
                assert(exists|j: int| 0 <= j < i + 1 && #[trigger] node_handled(scope.renders@[j].item, *event));
            } else {
                assert forall|j: int| 0 <= j < i + 1 && #[trigger] node_handled(scope.renders@[j].item, *event) implies 0 <= j < i
                    && node_handled(prev[j].item, *event) by {
                    if j < i {
                        assert(scope.renders@[j] == prev[j]);
                    }
                }
            }
            if pass_on is None {
                lemma_same_ids_refl(oc);
            }
            assert forall|j: int| 0 <= j <= i implies same_ids(
                #[trigger] old(scope).renders@[j].item.children,
                scope.renders@[j].item.children,
            ) by {
                if j < i {
                    assert(scope.renders@[j] == prev[j]);
                }
            }
            assert forall|j: int, k: int|
                0 <= j <= i && 0 <= k < old(scope).renders@[j].item.children.renders@.len()
                    && routed(*event, old(scope).renders@[j].item.state.origin, old(scope).renders@[j].item.state.size) is Some implies visited(
                    #[trigger] old(scope).renders@[j].item.children.renders@[k].item.state,
                    #[trigger] scope.renders@[j].item.children.renders@[k].item.state,
                    routed(*event, old(scope).renders@[j].item.state.origin, old(scope).renders@[j].item.state.size)->Some_0,
                ) by {
                if j < i {
                    assert(scope.renders@[j] == prev[j]);
                    assert(visited(
                        old(scope).renders@[j].item.children.renders@[k].item.state,
                        prev[j].item.children.renders@[k].item.state,
                        routed(*event, old(scope).renders@[j].item.state.origin, old(scope).renders@[j].item.state.size)->Some_0,
                    ));
                } else {
                    assert(pass_on is Some);
                    assert(visited(oc.renders@[k].item.state, nc.renders@[k].item.state, pass_on->Some_0));
                }
            }
            if pass_on is Some {
                assert forall|k: int| 0 <= k < oc.renders@.len() implies visited(
                    #[trigger] oc.renders@[k].item.state,
                    #[trigger] nc.renders@[k].item.state,
                    routed(*event, o.origin, o.size)->Some_0,
                ) by {
                    assert(visited(oc.renders@[k].item.state, nc.renders@[k].item.state, pass_on->Some_0));
                }
            }
            if tree_ok(*old(scope)) {
                lemma_tree_ok(*old(scope));
                let before = old(scope).renders@[i as int].item;
                assert(node_ok(before));
                let after = scope.renders@[i as int].item;
                if after.children.renders@ != before.children.renders@ {
                    lemma_bloom_bits_same(after.children.renders@, before.children.renders@);
                }
                assert(node_ok(after));
            }
        }
        i = i + 1;
    }
    proof {
        assert(scope.renders@.take(i as int) =~= scope.renders@);
        lemma_same_ids(*old(scope), *scope);
        lemma_handled_in(*scope, *event);
        if tree_ok(*old(scope)) {
            lemma_tree_ok(*old(scope));
            lemma_tree_ok(*scope);
        }
    }
    Handled(handled)
}

/// What the driver learns from sending one event through the tree.
pub struct EventOutcome {
    /// Some node the event reached handled it (`handled_in`).
    pub handled: bool,
    /// The window-level state gathered from every node the event visited.
    pub gathered: ChildState,
    /// The focus after the event, and the change to announce, if any.
    pub focus: FocusUpdate,
    /// The pointer glyph to show, if it is to change.
    pub cursor: Option<CursorIcon>,
    /// Relayout and repaint to do.
    pub after: AfterEvent,
    /// Whether some node emitted an action, so the description must run.
    pub rebuild: bool,
}

/// The glyph to show after `event`: the one a node asked for; otherwise
/// the arrow once the pointer moved or left; otherwise no change.
pub open spec fn cursor_after(gathered: ChildState, event: Event) -> Option<CursorIcon> {
    match gathered.cursor {
        Some(c) => Some(c.icon),
        None => match event {
            Event::MouseMove(_) | Event::MouseLeave => Some(CursorIcon::Arrow),
            _ => None,
        },
    }
}

/// The state the window level starts gathering from: the window's size,
/// nothing requested, nothing held.
pub open spec fn window_state(window: Size) -> ChildState {
    ChildState {
        id: ChildId(0),
        origin: Point { x: 0, y: 0 },
        size: window,
        invalid: None,
        is_hot: false,
        is_active: false,
        has_active: false,
        has_focus: false,
        request_focus: None,
        cursor: None,
        requests: NodeRequests { requires_im_pass: false, requires_layout: false, requires_paint: false },
        children: Bloom { bits: 0 },
        handled: false,
    }
}

/// Sends `event` through `tree` for a window of size `window` whose
/// focused node is `focus` (`dispatch_event`), and settles, once, what the
/// event asked for: the focus the gathered request resolves to, the
/// pointer glyph, the relayout and repaint, and whether the description
/// must run again. The change of focus is told to the nodes concerned by
/// `apply_focus_change`.
pub fn handle_event<W: RenderObject<A>, T, M, A>(
    tree: &mut Tree<W, T, M, A>,
    event: &Event,
    window: Size,
    focus: Option<ChildId>,
) -> (r: EventOutcome)
    ensures
        r.gathered == merged_all(window_state(window), final(tree).root.renders@),
        r.handled == handled_in(final(tree).root, *event),
        forall|i: int|
            0 <= i < old(tree).root.renders@.len() ==> #[trigger] visited(
                old(tree).root.renders@[i].item.state,
                final(tree).root.renders@[i].item.state,
                *event,
            ),
        r.focus == focus_resolution(focus, r.gathered.request_focus),
        r.cursor == cursor_after(r.gathered, *event),
        r.after.relayout == r.gathered.requests.requires_layout,
        r.after.repaint == (match damaged(r.gathered.requests.requires_layout, r.gathered.invalid, window) {
            Some(d) => if d.is_empty_spec() {
                None
            } else {
                Some(d)
            },
            None => None,
        }),
        r.rebuild == r.gathered.requests.requires_im_pass,
        final(tree).counter == old(tree).counter,
        final(tree).root.renders@.len() == old(tree).root.renders@.len(),
        final(tree).root.states@ == old(tree).root.states@,
        tree_ok(old(tree).root) ==> tree_ok(final(tree).root),
        same_ids(old(tree).root, final(tree).root),
        ids_at_most(old(tree).root, old(tree).counter.0 as nat) ==> ids_at_most(
            final(tree).root,
            final(tree).counter.0 as nat,
        ),
{
    let mut gathered = ChildState::new(ChildId(0), Some(window));
    gathered.requests = NodeRequests::none();
    proof {
        assert(gathered == window_state(window));
    }
    let handled = dispatch_event(&mut tree.root, &mut gathered, event, false);
    proof {
        if ids_at_most(old(tree).root, old(tree).counter.0 as nat) {
            lemma_same_ids_bound(old(tree).root, tree.root, old(tree).counter.0 as nat);
        }
    }
    let focus_update = resolve_focus(focus, gathered.request_focus);
    let cursor = match gathered.cursor {
        Some(c) => Some(c.icon),
        None => match event {
            Event::MouseMove(_) | Event::MouseLeave => Some(CursorIcon::Arrow),
            _ => None,
        },
    };
    let after = plan_after_event(gathered.requests.requires_layout, gathered.invalid, window);
    EventOutcome {
        handled: handled.0,
        gathered,
        focus: focus_update,
        cursor,
        after,
        rebuild: gathered.requests.requires_im_pass,
    }
}

/// Tells the nodes concerned of a resolved change of focus: the node that
/// lost it (`deliver_focus` with `false`), then the node that gained it.
/// Returns, for each, whether it was found; in a settled tree each is
/// found exactly when it is there. Without a change nothing happens.
pub fn apply_focus_change<W: RenderObject<A>, T, M, A>(tree: &mut Tree<W, T, M, A>, update: &FocusUpdate) -> (r: (
    bool,
    bool,
))
    ensures
        update.changed is None ==> r == (true, true) && *final(tree) == *old(tree),
        update.changed matches Some(m) ==> {
            &&& (m.old matches Some(o) ==> (tree_ok(old(tree).root) ==> (r.0 <==> holds_id(old(tree).root, o))))
            &&& (m.old is None ==> r.0)
            &&& (m.new matches Some(n) ==> (tree_ok(old(tree).root) ==> (r.1 <==> holds_id(old(tree).root, n))))
            &&& (m.new is None ==> r.1)
        },
        final(tree).counter == old(tree).counter,
        tree_ok(old(tree).root) ==> tree_ok(final(tree).root),
        same_ids(old(tree).root, final(tree).root),
        ids_at_most(old(tree).root, old(tree).counter.0 as nat) ==> ids_at_most(
            final(tree).root,
            final(tree).counter.0 as nat,
        ),
{
    let ghost bound = old(tree).counter.0 as nat;
    proof {
        lemma_same_ids_refl(tree.root);
    }
    match update.changed {
        None => (true, true),
        Some(moved) => {
            let mut lost = true;
            if let Some(old_id) = moved.old {
                lost = deliver_focus(&mut tree.root, old_id, false);
            }
            let ghost mid = tree.root;
            proof {
                if ids_at_most(old(tree).root, bound) {
                    lemma_same_ids_bound(old(tree).root, mid, bound);
                }
                lemma_same_ids_refl(mid);
            }
            let mut gained = true;
            if let Some(new_id) = moved.new {
                gained = deliver_focus(&mut tree.root, new_id, true);
                proof {
                    lemma_same_ids_holds(old(tree).root, mid, new_id);
                }
            }
            proof {
                if ids_at_most(mid, bound) {
                    lemma_same_ids_bound(mid, tree.root, bound);
                }
                lemma_same_ids_trans(old(tree).root, mid, tree.root);
            }
            (lost, gained)
        },
    }
}

/// Tells the node with identity `id`, under `scope`, that it gained
/// (`gained`) or lost keyboard focus, and marks it and the nodes above it
/// as holding the focus, or as no longer holding it. Subtrees whose filter
/// rules `id` out are not searched. Returns whether the node was found;
/// in a settled scope it is found exactly when it is there.
pub fn deliver_focus<W: RenderObject<A>, T, M, A>(scope: &mut Scope<W, T, M, A>, id: ChildId, gained: bool) -> (r:
    bool)
    ensures
        tree_ok(*old(scope)) ==> (r <==> holds_id(*old(scope), id)),
        tree_ok(*old(scope)) ==> tree_ok(*final(scope)),
        same_ids(*old(scope), *final(scope)),
        final(scope).states@ == old(scope).states@,
        final(scope).renders@.len() == old(scope).renders@.len(),
        forall|i: int|
            0 <= i < old(scope).renders@.len() ==> (#[trigger] final(scope).renders@[i]).key == old(
                scope,
            ).renders@[i].key && final(scope).renders@[i].dead == old(scope).renders@[i].dead
                && final(scope).renders@[i].item.state.id == old(scope).renders@[i].item.state.id
                && final(scope).renders@[i].item.state.children == old(
                scope,
            ).renders@[i].item.state.children,
        forall|i: int|
            0 <= i < old(scope).renders@.len() ==> (#[trigger] final(scope).renders@[i]).item.state.has_focus
                == old(scope).renders@[i].item.state.has_focus || final(scope).renders@[i].item.state.has_focus
                == gained,
        r ==> exists|i: int|
            0 <= i < old(scope).renders@.len() && (#[trigger] final(scope).renders@[i]).item.state.has_focus
                == gained && (old(scope).renders@[i].item.state.id == id || holds_id(
                old(scope).renders@[i].item.children,
                id,
            )),
    decreases *old(scope),
{
    proof {
        lemma_tree_ok(*old(scope));
    }
    let n = scope.renders.len();
    let mut i: usize = 0;
    while i < n
        invariant
            n == old(scope).renders@.len(),
            i <= n,
            scope.states@ == old(scope).states@,
            scope.renders@.len() == n,
            forall|j: int|
                0 <= j < n ==> (#[trigger] scope.renders@[j]).key == old(scope).renders@[j].key
                    && scope.renders@[j].dead == old(scope).renders@[j].dead
                    && scope.renders@[j].item.state.id == old(scope).renders@[j].item.state.id
                    && scope.renders@[j].item.state.children == old(scope).renders@[j].item.state.children,
            forall|j: int| i <= j < n ==> (#[trigger] scope.renders@[j]) == old(scope).renders@[j],
            forall|j: int| 0 <= j < n ==> (#[trigger] scope.renders@[j]).item.state == old(scope).renders@[j].item.state,
            tree_ok(*old(scope)) ==> forall|j: int|
                0 <= j < n ==> !(#[trigger] old(scope).renders@[j]).dead && node_ok(old(scope).renders@[j].item),
            tree_ok(*old(scope)) ==> forall|j: int|
                0 <= j < i ==> node_ok((#[trigger] scope.renders@[j]).item),
            tree_ok(*old(scope)) ==> !holds_in(old(scope).renders@, i as int, *old(scope), id),
            forall|j: int|
                0 <= j < i ==> same_ids(
                    #[trigger] old(scope).renders@[j].item.children,
                    scope.renders@[j].item.children,
                ),
        decreases n - i,
    {
        let node = &mut scope.renders[i].item;
        if node.state.id.0 == id.0 {
            node.state.has_focus = gained;
            let mut ctx = ElementCtx::for_state(&node.state);
            node.object.lifecycle(&mut ctx, &LifeCycle::FocusChanged(gained));
            ctx.apply_to_state(&mut node.state);
            proof {
                if tree_ok(*old(scope)) {
                    assert(holds_in(old(scope).renders@, i as int + 1, *old(scope), id));
                    lemma_holds_grows(*old(scope), i as int + 1, id);
                    assert(node_ok(scope.renders@[i as int].item));
                    lemma_tree_ok(*scope);
                }
            }
            proof {
                assert forall|j: int| 0 <= j < n implies same_ids(
                    #[trigger] old(scope).renders@[j].item.children,
                    scope.renders@[j].item.children,
                ) by {
                    if j == i {
                        lemma_same_ids_refl(old(scope).renders@[j].item.children);
                    } else if j > i {
                        lemma_same_ids_refl(old(scope).renders@[j].item.children);
                    }
                }
                lemma_same_ids(*old(scope), *scope);
            }
            return true;
        }
        if node.state.children.may_contain(id) {
            let found = deliver_focus(&mut node.children, id, gained);
            if found {
                node.state.has_focus = gained;
                proof {
                    let c = old(scope).renders@[i as int].item.children;
                    let k = choose|k: int|
                        0 <= k < c.renders@.len() && (#[trigger] node.children.renders@[k]).item.state.has_focus
                            == gained && (c.renders@[k].item.state.id == id || holds_id(
                            c.renders@[k].item.children,
                            id,
                        ));
                    assert(holds_in(c.renders@, k + 1, c, id));
                    lemma_holds_grows(c, k + 1, id);
                    assert(scope.renders@[i as int].item.state.has_focus == gained);
                    if tree_ok(*old(scope)) {
                        let before = old(scope).renders@[i as int].item;
                        assert(holds_id(before.children, id));
                        assert(holds_in(old(scope).renders@, i as int + 1, *old(scope), id));
                        lemma_holds_grows(*old(scope), i as int + 1, id);
                        lemma_bloom_bits_same(node.children.renders@, before.children.renders@);
                        assert(node_ok(*node));
                        lemma_tree_ok(*scope);
                    }
                }
                proof {
                    assert forall|j: int| 0 <= j < n implies same_ids(
                        #[trigger] old(scope).renders@[j].item.children,
                        scope.renders@[j].item.children,
                    ) by {
                        if j == i {
                            
                        } else if j > i {
                            lemma_same_ids_refl(old(scope).renders@[j].item.children);
                        }
                    }
                    lemma_same_ids(*old(scope), *scope);
                }
                return true;
            }
            proof {
                if tree_ok(*old(scope)) {
                    let before = old(scope).renders@[i as int].item;
                    lemma_bloom_bits_same(node.children.renders@, before.children.renders@);
                }
            }
        } else {
            proof {
                if tree_ok(*old(scope)) {
                    let c = node.children;
                    if holds_id(c, id) {
                        assert(holds_in(c.renders@, c.renders@.len() as int, c, id));
                        lemma_filter_covers(c, c.renders@.len() as int, id);
                        assert(c.renders@.take(c.renders@.len() as int) =~= c.renders@);
                    }
                }
            }
        }
        proof {
            if !node.state.children.holds(id) {
                lemma_same_ids_refl(old(scope).renders@[i as int].item.children);
            }
        }
        i = i + 1;
    }
    proof {
        if tree_ok(*old(scope)) {
            lemma_tree_ok(*scope);
        }
    }
    proof {
        lemma_same_ids(*old(scope), *scope);
    }
    false
}

proof fn lemma_holds_grows<W, T, M, A>(s: Scope<W, T, M, A>, k: int, id: ChildId)
    requires
        0 <= k <= s.renders@.len(),
        holds_in(s.renders@, k, s, id),
    ensures
        holds_id(s, id),
    decreases s.renders@.len() - k,
{
    if k < s.renders@.len() {
        lemma_holds_grows(s, k + 1, id);
    }
}

} // verus!
