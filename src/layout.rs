//! The layout pass: sizes go up the tree, positions are handed down.
use crate::constraints::{Constraints, Point, Size};
use crate::context::ElementCtx;
use crate::node::{ChildState, NodeRequests};
use crate::tree::{
    ids_at_most, layout_clear, lemma_layout_clear, lemma_bloom_bits_same, lemma_same_ids, lemma_same_ids_bound, lemma_same_ids_refl,
    lemma_tree_ok, node_ok, same_ids, tree_ok, Arrangement, Node, RenderObject, Scope, Tree,
};
use vstd::prelude::*;

verus! {

/// Why a layout pass failed: the tree was never built, or the root does
/// not fill the window. Both are faults of the caller or the root's object;
/// they are returned, not raised, and the caller is expected to stop.
#[derive(Clone, Copy, Debug, PartialEq, Eq, Structural)]
pub enum LayoutError {
    /// There is no root node: the tree was never built.
    MissingRoot,
    /// The root took a size other than the window's.
    RootSize { window: Size, took: Size },
}

/// The sizes of the nodes of `scope`, in order.
pub fn child_sizes<W, T, M, A>(scope: &Scope<W, T, M, A>) -> (r: Vec<Size>)
    ensures
        r@.len() == scope.renders@.len(),
        forall|i: int| 0 <= i < r@.len() ==> #[trigger] r@[i] == scope.renders@[i].item.state.size,
{
    let mut r: Vec<Size> = Vec::new();
    let mut i: usize = 0;
    while i < scope.renders.len()
        invariant
            i <= scope.renders@.len(),
            r@.len() == i,
            forall|j: int| 0 <= j < i ==> #[trigger] r@[j] == scope.renders@[j].item.state.size,
        decreases scope.renders@.len() - i,
    {
        r.push(scope.renders[i].item.state.size);
        i = i + 1;
    }
    r
}

/// The state of a child at `k` once an arrangement placed it.
pub open spec fn placed(st: ChildState, arr: Arrangement, k: int) -> ChildState {
    if k < arr.origins@.len() {
        ChildState { origin: arr.origins@[k], ..st }
    } else {
        st
    }
}

/// Applies what a node's object decided in layout: child `k` moves to
/// `origins[k]` where there is one, the node takes the arrangement's size,
/// its layout request is settled, and a change of size asks for a paint.
/// Returns the arrangement's size.
pub fn apply_arrangement<W, T, M, A>(node: &mut Node<W, T, M, A>, arr: &Arrangement) -> (r: Size)
    ensures
        r == arr.size,
        final(node).state == (ChildState {
            size: arr.size,
            requests: NodeRequests {
                requires_layout: false,
                requires_paint: old(node).state.requests.requires_paint || old(node).state.size != arr.size,
                ..old(node).state.requests
            },
            ..old(node).state
        }),
        final(node).object == old(node).object,
        final(node).action == old(node).action,
        final(node).children.states@ == old(node).children.states@,
        final(node).children.renders@.len() == old(node).children.renders@.len(),
        forall|k: int|
            0 <= k < old(node).children.renders@.len() ==> {
                let o = old(node).children.renders@[k];
                let f = #[trigger] final(node).children.renders@[k];
                &&& f.key == o.key
                &&& f.dead == o.dead
                &&& f.item.object == o.item.object
                &&& f.item.action == o.item.action
                &&& f.item.children == o.item.children
                &&& f.item.state == placed(o.item.state, *arr, k)
            },
{
    let n = node.children.renders.len();
    let mut k: usize = 0;
    while k < n
        invariant
            n == old(node).children.renders@.len(),
            k <= n,
            node.state == old(node).state,
            node.object == old(node).object,
            node.action == old(node).action,
            node.children.states@ == old(node).children.states@,
            node.children.renders@.len() == n,
            forall|j: int|
                0 <= j < n ==> {
                    let o = old(node).children.renders@[j];
                    let f = #[trigger] node.children.renders@[j];
                    &&& f.key == o.key
                    &&& f.dead == o.dead
                    &&& f.item.object == o.item.object
                    &&& f.item.action == o.item.action
                    &&& f.item.children == o.item.children
                    &&& f.item.state == (if j < k {
                        placed(o.item.state, *arr, j)
                    } else {
                        o.item.state
                    })
                },
        decreases n - k,
    {
        if k < arr.origins.len() {
            node.children.renders[k].item.state.origin = arr.origins[k];
        }
        k = k + 1;
    }
    let before = node.state.size;
    node.state.size = arr.size;
    node.state.requests.requires_layout = false;
    if before != arr.size {
        node.state.requests.requires_paint = true;
    }
    arr.size
}

/// Lays out `node` within `constraints`: every child, in order, is laid
/// out within the constraints the node's object gives it; the object is
/// then handed the children's new sizes (`child_sizes`) and decides its
/// own size and their origins, which `apply_arrangement` applies. Returns
/// that arrangement. The node and every child come out with their
/// layout request settled; a paint request stays, and a change of size
/// asks for one. The tree's shape, keys and identities stay as they were.
pub fn layout_node<W: RenderObject<A>, T, M, A>(node: &mut Node<W, T, M, A>, constraints: &Constraints) -> (r:
    Arrangement)
    ensures
        final(node).state.size == r.size,
        forall|k: int|
            0 <= k < old(node).children.renders@.len() ==> (#[trigger] final(node).children.renders@[k]).item.state.origin
                == (if k < r.origins@.len() {
                r.origins@[k]
            } else {
                old(node).children.renders@[k].item.state.origin
            }),
        layout_clear(final(node).children),
        final(node).state.id == old(node).state.id,
        final(node).state.origin == old(node).state.origin,
        final(node).state.children == old(node).state.children,
        !final(node).state.requests.requires_layout,
        old(node).state.requests.requires_paint || old(node).state.size != r.size
            ==> final(node).state.requests.requires_paint,
        final(node).children.states@ == old(node).children.states@,
        final(node).children.renders@.len() == old(node).children.renders@.len(),
        forall|i: int|
            0 <= i < old(node).children.renders@.len() ==> (#[trigger] final(node).children.renders@[i]).key
                == old(node).children.renders@[i].key && final(node).children.renders@[i].dead == old(
                node,
            ).children.renders@[i].dead && final(node).children.renders@[i].item.state.id == old(
                node,
            ).children.renders@[i].item.state.id && final(node).children.renders@[i].item.state.children
                == old(node).children.renders@[i].item.state.children
                && !final(node).children.renders@[i].item.state.requests.requires_layout,
        node_ok(*old(node)) ==> node_ok(*final(node)),
        same_ids(old(node).children, final(node).children),
    decreases *old(node),
{
    let mut ctx = ElementCtx::for_state(&node.state);
    let n = node.children.renders.len();
    let mut i: usize = 0;
    proof {
        if node_ok(*old(node)) {
            lemma_tree_ok(old(node).children);
        }
    }
    while i < n
        invariant
            n == old(node).children.renders@.len(),
            i <= n,
            node.children.states@ == old(node).children.states@,
            node.children.renders@.len() == n,
            node.state == old(node).state,
            forall|j: int|
                0 <= j < n ==> (#[trigger] node.children.renders@[j]).key == old(
                    node,
                ).children.renders@[j].key && node.children.renders@[j].dead == old(
                    node,
                ).children.renders@[j].dead && node.children.renders@[j].item.state.id == old(
                    node,
                ).children.renders@[j].item.state.id && node.children.renders@[j].item.state.children
                    == old(node).children.renders@[j].item.state.children,
            forall|j: int| 0 <= j < i ==> !(#[trigger] node.children.renders@[j]).item.state.requests.requires_layout,
            forall|j: int| i <= j < n ==> (#[trigger] node.children.renders@[j]) == old(node).children.renders@[j],
            forall|j: int|
                0 <= j < i ==> same_ids(
                    #[trigger] old(node).children.renders@[j].item.children,
                    node.children.renders@[j].item.children,
                ),
            forall|j: int|
                0 <= j < i ==> layout_clear((#[trigger] node.children.renders@[j]).item.children),
            forall|j: int|
                0 <= j < n ==> (#[trigger] node.children.renders@[j]).item.state.origin == old(
                    node,
                ).children.renders@[j].item.state.origin,
            node_ok(*old(node)) ==> forall|j: int|
                0 <= j < i ==> node_ok((#[trigger] node.children.renders@[j]).item),
            node_ok(*old(node)) ==> forall|j: int|
                0 <= j < n ==> node_ok((#[trigger] old(node).children.renders@[j]).item),
        decreases n - i,
    {
        let cc = node.object.child_constraints(&mut ctx, constraints, i, n);
        layout_node(&mut node.children.renders[i].item, &cc);
        i = i + 1;
    }
    let sizes = child_sizes(&node.children);
    let arr = node.object.arrange(&mut ctx, constraints, &sizes);
    let ghost before_apply = *node;
    apply_arrangement(node, &arr);
    node.state.requests.merge(
        NodeRequests {
            requires_im_pass: ctx.requires_im_pass,
            requires_layout: false,
            requires_paint: ctx.requires_paint,
        },
    );
    proof {
        assert forall|j: int| 0 <= j < n implies same_ids(
            #[trigger] old(node).children.renders@[j].item.children,
            node.children.renders@[j].item.children,
        ) by {
            assert(node.children.renders@[j].item.children == before_apply.children.renders@[j].item.children);
        }
        lemma_same_ids(old(node).children, node.children);
        assert forall|j: int| 0 <= j < n implies !(#[trigger] node.children.renders@[j]).item.state.requests.requires_layout
            && layout_clear(node.children.renders@[j].item.children) by {
            assert(node.children.renders@[j].item.children == before_apply.children.renders@[j].item.children);
            assert(node.children.renders@[j].item.state == placed(
                before_apply.children.renders@[j].item.state,
                arr,
                j,
            ));
        }
        lemma_layout_clear(node.children);
        assert forall|k: int| 0 <= k < n implies (#[trigger] node.children.renders@[k]).item.state.origin == (if k
            < arr.origins@.len() {
            arr.origins@[k]
        } else {
            old(node).children.renders@[k].item.state.origin
        }) by {
            assert(node.children.renders@[k].item.state == placed(
                before_apply.children.renders@[k].item.state,
                arr,
                k,
            ));
        }
        assert forall|j: int| 0 <= j < n implies {
            let f = #[trigger] node.children.renders@[j];
            &&& f.key == old(node).children.renders@[j].key
            &&& f.dead == old(node).children.renders@[j].dead
            &&& f.item.state.id == old(node).children.renders@[j].item.state.id
            &&& f.item.state.children == old(node).children.renders@[j].item.state.children
            &&& !f.item.state.requests.requires_layout
        } by {
            assert(node.children.renders@[j].item.state == placed(
                before_apply.children.renders@[j].item.state,
                arr,
                j,
            ));
        }
        if node_ok(*old(node)) {
            assert forall|j: int| 0 <= j < n implies node_ok((#[trigger] node.children.renders@[j]).item) by {
                assert(node.children.renders@[j].item.children == before_apply.children.renders@[j].item.children);
                assert(node.children.renders@[j].item.state.children == before_apply.children.renders@[j].item.state.children);
                assert(node_ok(before_apply.children.renders@[j].item));
            }
            lemma_bloom_bits_same(node.children.renders@, old(node).children.renders@);
            lemma_tree_ok(node.children);
        }
    }
    arr
}

/// Lays out the tree for a window of size `window`: the root node is laid
/// out within exactly that size, at the window's origin. A root that takes
/// any other size is reported.
pub fn layout_root<W: RenderObject<A>, T, M, A>(tree: &mut Tree<W, T, M, A>, window: Size) -> (r: Result<
    Size,
    LayoutError,
>)
    ensures
        old(tree).root.renders@.len() == 0 <==> r == Err::<Size, LayoutError>(LayoutError::MissingRoot),
        old(tree).root.renders@.len() > 0 ==> {
            let root = final(tree).root.renders@[0].item.state;
            &&& root.origin == (Point { x: 0, y: 0 })
            &&& !root.requests.requires_layout
            &&& layout_clear(final(tree).root.renders@[0].item.children)
            &&& r == if root.size == window {
                Ok::<Size, LayoutError>(window)
            } else {
                Err(LayoutError::RootSize { window, took: root.size })
            }
        },
        final(tree).root.renders@.len() == old(tree).root.renders@.len(),
        final(tree).counter == old(tree).counter,
        tree_ok(old(tree).root) ==> tree_ok(final(tree).root),
        same_ids(old(tree).root, final(tree).root),
        ids_at_most(old(tree).root, old(tree).counter.0 as nat) ==> ids_at_most(
            final(tree).root,
            final(tree).counter.0 as nat,
        ),
{
    if tree.root.renders.len() == 0 {
        proof {
            lemma_same_ids_refl(tree.root);
        }
        return Err(LayoutError::MissingRoot);
    }
    proof {
        lemma_tree_ok(tree.root);
    }
    let c = Constraints::tight(window);
    let s = layout_node(&mut tree.root.renders[0].item, &c).size;
    tree.root.renders[0].item.state.origin = Point { x: 0, y: 0 };
    proof {
        if tree_ok(old(tree).root) {
            lemma_tree_ok(tree.root);
            assert(node_ok(tree.root.renders@[0].item));
        }
        assert forall|j: int| 0 <= j < tree.root.renders@.len() implies same_ids(
            #[trigger] old(tree).root.renders@[j].item.children,
            tree.root.renders@[j].item.children,
        ) by {
            if j > 0 {
                lemma_same_ids_refl(old(tree).root.renders@[j].item.children);
            }
        }
        lemma_same_ids(old(tree).root, tree.root);
        if ids_at_most(old(tree).root, old(tree).counter.0 as nat) {
            lemma_same_ids_bound(old(tree).root, tree.root, old(tree).counter.0 as nat);
        }
    }
    if s == window {
        Ok(s)
    } else {
        Err(LayoutError::RootSize { window, took: s })
    }
}

} // verus!
