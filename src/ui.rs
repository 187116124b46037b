//! A build pass: the cursor through the retained tree that the
//! application's description drives, one request at a time.
use crate::context::ElementCtx;
use crate::cursor::{first_match, live, mark_dead, request, survivors, Cursor, Slot};
use crate::id::ChildCounter;
use crate::key::Key;
use crate::node::ChildState;
use crate::state::{folds_to, Hook, StoreObject};
use crate::tree::{
    bloom_bits, children_bloom, ids_at_most, lemma_ids_at_most, lemma_ids_grow, lemma_tree_ok,
    node_ids_at_most, node_ok, tree_ok, Node, RenderObject, Scope, Tree,
};
use vstd::prelude::*;

verus! {

/// Why a request of a pass was refused. Each is a fault in the description
/// (or an exhausted counter), not a transient condition: a mismatch names
/// what was expected and what was found, and every refusal aborts the pass (every
/// later request is refused with it and `finish` fails with it). It is
/// returned rather than raised because nothing in this library panics;
/// the caller is expected to stop, as the driver in `app/` does.
#[derive(Clone, Copy, Debug, PartialEq, Eq, Structural)]
pub enum BuildError {
    /// The entry matched at this location was made for another kind of
    /// thing: one location was used for two kinds.
    KindMismatch { expected: u64, found: u64 },
    /// No node identity is left to hand out.
    IdsExhausted,
    /// `end_node` without a node begun and not yet ended.
    NoOpenNode,
    /// The state slot matched was not made by the hook that asks for it.
    HookMismatch,
}

/// One scope being rebuilt: the cursors over its two collections.
pub struct Level<W, T, M, A> {
    pub states: Cursor<Hook<T, M>>,
    pub renders: Cursor<Node<W, T, M, A>>,
}

/// What a level holds and where its cursors stand.
pub struct LevelView<W, T, M, A> {
    pub states: Seq<Slot<Hook<T, M>>>,
    pub state_index: int,
    pub renders: Seq<Slot<Node<W, T, M, A>>>,
    pub render_index: int,
}

impl<W, T, M, A> Level<W, T, M, A> {
    pub open spec fn view(&self) -> LevelView<W, T, M, A> {
        LevelView {
            states: self.states.entries@,
            state_index: self.states.index as int,
            renders: self.renders.entries@,
            render_index: self.renders.index as int,
        }
    }

    pub open spec fn wf(&self) -> bool {
        self.states.wf() && self.renders.wf()
    }

    /// Starts a pass over `scope`.
    pub fn start(scope: Scope<W, T, M, A>) -> (r: Self)
        ensures
            r@ == (LevelView { states: scope.states@, state_index: 0, renders: scope.renders@, render_index: 0 }),
            r.wf(),
    {
        Level { states: Cursor::new(scope.states), renders: Cursor::new(scope.renders) }
    }

    /// Ends the pass over this scope, pruning both collections.
    pub fn close(self) -> (r: Scope<W, T, M, A>)
        requires
            self.wf(),
        ensures
            r.states@ == survivors(self@.states, self@.state_index),
            r.renders@ == survivors(self@.renders, self@.render_index),
            forall|i: int| 0 <= i < r.states@.len() ==> !(#[trigger] r.states@[i]).dead,
            forall|i: int| 0 <= i < r.renders@.len() ==> !(#[trigger] r.renders@[i]).dead,
    {
        Scope { states: self.states.finish(), renders: self.renders.finish() }
    }
}

/// A node whose children are being described: the node itself, its
/// children taken out, and the pass over them.
pub struct OpenNode<W, T, M, A> {
    pub slot: Slot<Node<W, T, M, A>>,
    pub level: Level<W, T, M, A>,
}

/// Names a state slot of a scope still being built: the scope's depth
/// (the root scope is depth 0) and the slot's position in it.
#[derive(Clone, Copy, Debug, PartialEq, Eq, Structural)]
pub struct StateRef {
    pub depth: usize,
    pub index: usize,
}

/// `after` is `before` once the request for the state slot at `key`,
/// offering `init`, went through `request` at the current level and
/// handed back `r`.
pub open spec fn state_granted<W, T, M, A>(
    before: Ui<W, T, M, A>,
    after: Ui<W, T, M, A>,
    key: Key,
    init: Hook<T, M>,
    r: Result<StateRef, BuildError>,
) -> bool {
    let top = before.top();
    let n = before.levels().len() as int;
    let (s1, c1) = request(top.states, top.state_index, key, init);
    &&& r == Ok::<StateRef, BuildError>(StateRef { depth: (n - 1) as usize, index: (c1 - 1) as usize })
    &&& after.levels() == before.levels().update(n - 1, LevelView { states: s1, state_index: c1, ..top })
    &&& after.slots() == before.slots()
    &&& after.counter == before.counter
    &&& after.action_consumed == before.action_consumed
    &&& after.failed == before.failed
}

/// Every node held in `rs` is settled (`node_ok`); the entries themselves
/// may be marked dead.
pub open spec fn all_settled<W, T, M, A>(rs: Seq<Slot<Node<W, T, M, A>>>) -> bool {
    forall|i: int| 0 <= i < rs.len() ==> node_ok(#[trigger] rs[i].item)
}

/// Every node held in every level of `ls` is settled.
pub open spec fn levels_settled<W, T, M, A>(ls: Seq<LevelView<W, T, M, A>>) -> bool {
    forall|l: int| 0 <= l < ls.len() ==> all_settled(#[trigger] ls[l].renders)
}

proof fn lemma_settled_mark<W, T, M, A>(s: Seq<Slot<Node<W, T, M, A>>>, c: int, p: int)
    requires
        all_settled(s),
        0 <= p < s.len(),
    ensures
        all_settled(mark_dead(s, c, p)),
        all_settled(mark_dead(s, c, p).remove(p)),
{
    let m = mark_dead(s, c, p);
    assert forall|i: int| 0 <= i < m.len() implies node_ok(#[trigger] m[i].item) by {
        assert(m[i].item == s[i].item);
    }
    let r = m.remove(p);
    assert forall|i: int| 0 <= i < r.len() implies node_ok(#[trigger] r[i].item) by {
        if i < p {
            assert(r[i] == m[i]);
        } else {
            assert(r[i] == m[i + 1]);
        }
    }
}

proof fn lemma_settled_insert<W, T, M, A>(s: Seq<Slot<Node<W, T, M, A>>>, c: int, x: Slot<Node<W, T, M, A>>)
    requires
        all_settled(s),
        node_ok(x.item),
        0 <= c <= s.len(),
    ensures
        all_settled(s.insert(c, x)),
{
    let r = s.insert(c, x);
    assert forall|i: int| 0 <= i < r.len() implies node_ok(#[trigger] r[i].item) by {
        if i < c {
            assert(r[i] == s[i]);
        } else if i > c {
            assert(r[i] == s[i - 1]);
        }
    }
}

proof fn lemma_settled_live<W, T, M, A>(s: Seq<Slot<Node<W, T, M, A>>>)
    requires
        all_settled(s),
    ensures
        all_settled(live(s)),
    decreases s.len(),
{
    if s.len() > 0 {
        let d = s.drop_last();
        assert(all_settled(d)) by {
            assert forall|i: int| 0 <= i < d.len() implies node_ok(#[trigger] d[i].item) by {
                assert(d[i] == s[i]);
            }
        }
        lemma_settled_live(d);
        if !s.last().dead {
            let l = live(d);
            assert(live(s) == l.push(s.last()));
            assert(node_ok(s[s.len() - 1].item));
            assert forall|i: int| 0 <= i < l.push(s.last()).len() implies node_ok(
                #[trigger] l.push(s.last())[i].item,
            ) by {
                if i < l.len() {
                    assert(l.push(s.last())[i] == l[i]);
                }
            }
        } else {
            assert(live(s) == live(d));
        }
    }
}

proof fn lemma_settled_take<W, T, M, A>(s: Seq<Slot<Node<W, T, M, A>>>, c: int)
    requires
        all_settled(s),
        0 <= c <= s.len(),
    ensures
        all_settled(survivors(s, c)),
{
    let t = s.take(c);
    assert forall|i: int| 0 <= i < t.len() implies node_ok(#[trigger] t[i].item) by {
        assert(t[i] == s[i]);
    }
    lemma_settled_live(t);
}

proof fn lemma_levels_push<W, T, M, A>(ls: Seq<LevelView<W, T, M, A>>, lv: LevelView<W, T, M, A>)
    requires
        levels_settled(ls),
        all_settled(lv.renders),
    ensures
        levels_settled(ls.push(lv)),
{
    let p = ls.push(lv);
    assert forall|l: int| 0 <= l < p.len() implies all_settled(#[trigger] p[l].renders) by {
        if l < ls.len() {
            assert(p[l] == ls[l]);
        }
    }
}

proof fn lemma_children_settled<W, T, M, A>(n: Node<W, T, M, A>)
    requires
        node_ok(n),
    ensures
        all_settled(n.children.renders@),
{
    lemma_tree_ok(n.children);
}

proof fn lemma_levels_update<W, T, M, A>(ls: Seq<LevelView<W, T, M, A>>, k: int, lv: LevelView<W, T, M, A>)
    requires
        levels_settled(ls),
        all_settled(lv.renders),
        0 <= k < ls.len(),
    ensures
        levels_settled(ls.update(k, lv)),
        levels_settled(ls.drop_last()),
        levels_settled(ls.update(k, lv).push(lv)),
{
    let u = ls.update(k, lv);
    assert forall|l: int| 0 <= l < u.len() implies all_settled(#[trigger] u[l].renders) by {
        if l != k {
            assert(u[l] == ls[l]);
        }
    }
    let d = ls.drop_last();
    assert forall|l: int| 0 <= l < d.len() implies all_settled(#[trigger] d[l].renders) by {
        assert(d[l] == ls[l]);
    }
    let p = u.push(lv);
    assert forall|l: int| 0 <= l < p.len() implies all_settled(#[trigger] p[l].renders) by {
        if l < u.len() {
            assert(p[l] == u[l]);
        }
    }
}

/// Every node held in `rs`, and everything under it, has an identity of at
/// most `c`.
pub open spec fn all_ids_at_most<W, T, M, A>(rs: Seq<Slot<Node<W, T, M, A>>>, c: nat) -> bool {
    forall|i: int| 0 <= i < rs.len() ==> node_ids_at_most(#[trigger] rs[i].item, c)
}

/// Every node held in every level of `ls` has identities of at most `c`.
pub open spec fn levels_ids_at_most<W, T, M, A>(ls: Seq<LevelView<W, T, M, A>>, c: nat) -> bool {
    forall|l: int| 0 <= l < ls.len() ==> all_ids_at_most(#[trigger] ls[l].renders, c)
}

proof fn lemma_ids_mark<W, T, M, A>(bound: nat, s: Seq<Slot<Node<W, T, M, A>>>, c: int, p: int)
    requires
        all_ids_at_most(s, bound),
        0 <= p < s.len(),
    ensures
        all_ids_at_most(mark_dead(s, c, p), bound),
        all_ids_at_most(mark_dead(s, c, p).remove(p), bound),
{
    let m = mark_dead(s, c, p);
    assert forall|i: int| 0 <= i < m.len() implies node_ids_at_most(#[trigger] m[i].item, bound) by {
        assert(m[i].item == s[i].item);
    }
    let r = m.remove(p);
    assert forall|i: int| 0 <= i < r.len() implies node_ids_at_most(#[trigger] r[i].item, bound) by {
        if i < p {
            assert(r[i] == m[i]);
        } else {
            assert(r[i] == m[i + 1]);
        }
    }
}

proof fn lemma_ids_insert<W, T, M, A>(bound: nat, s: Seq<Slot<Node<W, T, M, A>>>, c: int, x: Slot<Node<W, T, M, A>>)
    requires
        all_ids_at_most(s, bound),
        node_ids_at_most(x.item, bound),
        0 <= c <= s.len(),
    ensures
        all_ids_at_most(s.insert(c, x), bound),
{
    let r = s.insert(c, x);
    assert forall|i: int| 0 <= i < r.len() implies node_ids_at_most(#[trigger] r[i].item, bound) by {
        if i < c {
            assert(r[i] == s[i]);
        } else if i > c {
            assert(r[i] == s[i - 1]);
        }
    }
}

proof fn lemma_ids_live<W, T, M, A>(bound: nat, s: Seq<Slot<Node<W, T, M, A>>>)
    requires
        all_ids_at_most(s, bound),
    ensures
        all_ids_at_most(live(s), bound),
    decreases s.len(),
{
    if s.len() > 0 {
        let d = s.drop_last();
        assert(all_ids_at_most(d, bound)) by {
            assert forall|i: int| 0 <= i < d.len() implies node_ids_at_most(#[trigger] d[i].item, bound) by {
                assert(d[i] == s[i]);
            }
        }
        lemma_ids_live(bound, d);
        if !s.last().dead {
            let l = live(d);
            assert(live(s) == l.push(s.last()));
            assert(node_ids_at_most(s[s.len() - 1].item, bound));
            assert forall|i: int| 0 <= i < l.push(s.last()).len() implies node_ids_at_most(
                #[trigger] l.push(s.last())[i].item, bound,
            ) by {
                if i < l.len() {
                    assert(l.push(s.last())[i] == l[i]);
                }
            }
        } else {
            assert(live(s) == live(d));
        }
    }
}

proof fn lemma_ids_take<W, T, M, A>(bound: nat, s: Seq<Slot<Node<W, T, M, A>>>, c: int)
    requires
        all_ids_at_most(s, bound),
        0 <= c <= s.len(),
    ensures
        all_ids_at_most(survivors(s, c), bound),
{
    let t = s.take(c);
    assert forall|i: int| 0 <= i < t.len() implies node_ids_at_most(#[trigger] t[i].item, bound) by {
        assert(t[i] == s[i]);
    }
    lemma_ids_live(bound, t);
}

proof fn lemma_levels_ids_push<W, T, M, A>(bound: nat, ls: Seq<LevelView<W, T, M, A>>, lv: LevelView<W, T, M, A>)
    requires
        levels_ids_at_most(ls, bound),
        all_ids_at_most(lv.renders, bound),
    ensures
        levels_ids_at_most(ls.push(lv), bound),
{
    let p = ls.push(lv);
    assert forall|l: int| 0 <= l < p.len() implies all_ids_at_most(#[trigger] p[l].renders, bound) by {
        if l < ls.len() {
            assert(p[l] == ls[l]);
        }
    }
}

proof fn lemma_children_ids<W, T, M, A>(bound: nat, n: Node<W, T, M, A>)
    requires
        node_ids_at_most(n, bound),
    ensures
        all_ids_at_most(n.children.renders@, bound),
{
    lemma_ids_at_most(n.children, bound);
}

proof fn lemma_levels_ids_update<W, T, M, A>(bound: nat, ls: Seq<LevelView<W, T, M, A>>, k: int, lv: LevelView<W, T, M, A>)
    requires
        levels_ids_at_most(ls, bound),
        all_ids_at_most(lv.renders, bound),
        0 <= k < ls.len(),
    ensures
        levels_ids_at_most(ls.update(k, lv), bound),
        levels_ids_at_most(ls.drop_last(), bound),
        levels_ids_at_most(ls.update(k, lv).push(lv), bound),
{
    let u = ls.update(k, lv);
    assert forall|l: int| 0 <= l < u.len() implies all_ids_at_most(#[trigger] u[l].renders, bound) by {
        if l != k {
            assert(u[l] == ls[l]);
        }
    }
    let d = ls.drop_last();
    assert forall|l: int| 0 <= l < d.len() implies all_ids_at_most(#[trigger] d[l].renders, bound) by {
        assert(d[l] == ls[l]);
    }
    let p = u.push(lv);
    assert forall|l: int| 0 <= l < p.len() implies all_ids_at_most(#[trigger] p[l].renders, bound) by {
        if l < u.len() {
            assert(p[l] == u[l]);
        }
    }
}

proof fn lemma_levels_ids_grow<W, T, M, A>(ls: Seq<LevelView<W, T, M, A>>, c: nat, d: nat)
    requires
        levels_ids_at_most(ls, c),
        c <= d,
    ensures
        levels_ids_at_most(ls, d),
{
    assert forall|l: int| 0 <= l < ls.len() implies all_ids_at_most(#[trigger] ls[l].renders, d) by {
        let rs = ls[l].renders;
        assert forall|i: int| 0 <= i < rs.len() implies node_ids_at_most(#[trigger] rs[i].item, d) by {
            assert(node_ids_at_most(rs[i].item, c));
            lemma_ids_grow(rs[i].item.children, c, d);
        }
    }
}

/// `after` is `before` aborted by the refusal that `r` carries.
pub open spec fn aborted<W, T, M, A, X>(before: Ui<W, T, M, A>, after: Ui<W, T, M, A>, r: Result<X, BuildError>) -> bool {
    &&& r is Err
    &&& after == (Ui { failed: Some(r->Err_0), ..before })
}

/// One build pass over a tree.
pub struct Ui<W, T, M, A> {
    pub root: Level<W, T, M, A>,
    pub open: Vec<OpenNode<W, T, M, A>>,
    pub counter: ChildCounter,
    /// Whether this pass handed out an action that some node emitted.
    pub action_consumed: bool,
    /// The refusal that aborted this pass, if any: from then on every
    /// request is refused with it, and the pass cannot be finished.
    pub failed: Option<BuildError>,
}

impl<W, T, M, A> Ui<W, T, M, A> {
    /// The levels from the root scope down to the innermost open node.
    pub open spec fn levels(&self) -> Seq<LevelView<W, T, M, A>> {
        seq![self.root@] + self.open@.map_values(|o: OpenNode<W, T, M, A>| o.level@)
    }

    /// The open nodes, outermost first.
    pub open spec fn slots(&self) -> Seq<Slot<Node<W, T, M, A>>> {
        self.open@.map_values(|o: OpenNode<W, T, M, A>| o.slot)
    }

    /// The level that requests go to now.
    pub open spec fn top(&self) -> LevelView<W, T, M, A> {
        self.levels().last()
    }

    /// Every node the pass holds is settled, so that what it puts back
    /// together is too.
    pub open spec fn settled(&self) -> bool {
        levels_settled(self.levels())
    }

    /// No node the pass holds, nor any node under one, has an identity
    /// above the counter, so the next identity handed out is new.
    pub open spec fn ids_ok(&self) -> bool {
        &&& levels_ids_at_most(self.levels(), self.counter.0 as nat)
        &&& forall|o: int| 0 <= o < self.slots().len() ==> (#[trigger] self.slots()[o]).item.state.id.0 <= self.counter.0
    }

    pub open spec fn wf(&self) -> bool {
        &&& self.root.wf()
        &&& forall|i: int| 0 <= i < self.open@.len() ==> (#[trigger] self.open@[i]).level.wf()
    }

    proof fn lemma_top(&self)
        ensures
            self.levels().len() == self.open@.len() + 1,
            self.top() == (if self.open@.len() == 0 {
                self.root@
            } else {
                self.open@[self.open@.len() - 1].level@
            }),
            self.levels()[0] == self.root@,
            forall|i: int| 0 <= i < self.open@.len() ==> self.levels()[i + 1] == (#[trigger] self.open@[i]).level@,
    {
    }

    /// A pass over `tree`, with nothing requested yet.
    pub fn new(tree: Tree<W, T, M, A>) -> (r: Self)
        ensures
            r.wf(),
            r.levels() == seq![
                LevelView { states: tree.root.states@, state_index: 0, renders: tree.root.renders@, render_index: 0 },
            ],
            r.open@.len() == 0,
            r.counter == tree.counter,
            !r.action_consumed,
            r.failed is None,
            tree_ok(tree.root) ==> r.settled(),
            ids_at_most(tree.root, tree.counter.0 as nat) ==> r.ids_ok(),
    {
        proof {
            lemma_tree_ok(tree.root);
            lemma_ids_at_most(tree.root, tree.counter.0 as nat);
        }
        let ghost rs = tree.root.renders@;
        let r = Ui {
            root: Level::start(tree.root),
            open: Vec::new(),
            counter: tree.counter,
            action_consumed: false,
            failed: None,
        };
        proof {
            assert(r.levels() =~= seq![r.root@]);
            if tree_ok(tree.root) {
                assert(all_settled(rs));
                assert(levels_settled(r.levels()));
            }
            if ids_at_most(tree.root, tree.counter.0 as nat) {
                assert(all_ids_at_most(rs, tree.counter.0 as nat));
                assert(levels_ids_at_most(r.levels(), r.counter.0 as nat));
                assert(r.slots().len() == 0);
            }
        }
        r
    }
}

impl<W: RenderObject<A>, T, M, A> Ui<W, T, M, A> {
    /// Asks, in the current scope, for the node at `key` described by
    /// `props`, and opens it: requests that follow go to its children until
    /// `end_node`.
    ///
    /// The first node at or after the cursor whose location is `key`'s is
    /// matched: the nodes the cursor skips on its way are marked dead, the
    /// matched node keeps its identity and the rest of its state, its
    /// object is updated from `props` (its request for another build pass
    /// is settled, and it keeps any layout or paint request), and the
    /// action it emitted since it was last asked for is handed back.
    ///
    /// If no node matches, a node is made from `props` with the identity
    /// after the counter's, which no node of a pass keeping `ids_ok` holds;
    /// it enters the scope at the cursor when it is ended. A refused
    /// request aborts the pass (`failed`).
    #[verifier::rlimit(60)]
    pub fn begin_node(&mut self, key: Key, props: W) -> (r: Result<Option<A>, BuildError>)
        requires
            old(self).wf(),
        ensures
            final(self).wf(),
            old(self).ids_ok() ==> final(self).ids_ok(),
            old(self).settled() ==> final(self).settled(),
            old(self).failed is Some ==> r == Err::<Option<A>, BuildError>(old(self).failed->Some_0)
                && *final(self) == *old(self),
            old(self).failed is None ==> ({
                let top = old(self).top();
                let n = old(self).levels().len() as int;
                match first_match(top.renders, top.render_index, key.location) {
                    Some(p) => if top.renders[p].key.kind != key.kind {
                        &&& r == Err::<Option<A>, BuildError>(
                            BuildError::KindMismatch { expected: key.kind, found: top.renders[p].key.kind },
                        )
                        &&& aborted(*old(self), *final(self), r)
                    } else {
                        let e = top.renders[p];
                        &&& r == Ok::<Option<A>, BuildError>(e.item.action)
                        &&& final(self).levels() == old(self).levels().update(
                            n - 1,
                            LevelView {
                                renders: mark_dead(top.renders, top.render_index, p).remove(p),
                                render_index: p,
                                ..top
                            },
                        ).push(
                            LevelView {
                                states: e.item.children.states@,
                                state_index: 0,
                                renders: e.item.children.renders@,
                                render_index: 0,
                            },
                        )
                        &&& final(self).slots().drop_last() == old(self).slots()
                        &&& final(self).slots().last().key == e.key
                        &&& final(self).slots().last().item.state == (ChildState {
                            requests: final(self).slots().last().item.state.requests,
                            ..e.item.state
                        })
                        &&& e.item.state.requests.requires_layout
                            ==> final(self).slots().last().item.state.requests.requires_layout
                        &&& e.item.state.requests.requires_paint
                            ==> final(self).slots().last().item.state.requests.requires_paint
                        &&& final(self).slots().last().item.action is None
                        &&& final(self).counter == old(self).counter
                        &&& final(self).action_consumed == (old(self).action_consumed
                            || e.item.action is Some)
                        &&& final(self).failed is None
                    },
                    None => if old(self).counter.0 == usize::MAX {
                        &&& r == Err::<Option<A>, BuildError>(BuildError::IdsExhausted)
                        &&& aborted(*old(self), *final(self), r)
                    } else {
                        &&& r == Ok::<Option<A>, BuildError>(None)
                        &&& final(self).levels() == old(self).levels().push(
                            LevelView {
                                states: Seq::empty(),
                                state_index: 0,
                                renders: Seq::empty(),
                                render_index: 0,
                            },
                        )
                        &&& final(self).slots().drop_last() == old(self).slots()
                        &&& final(self).slots().last().key == key
                        &&& final(self).slots().last().item.object == props
                        &&& final(self).slots().last().item.state.id.0 == old(self).counter.0 + 1
                        &&& final(self).slots().last().item.state.requests.requires_layout
                        &&& final(self).slots().last().item.action is None
                        &&& final(self).counter.0 == old(self).counter.0 + 1
                        &&& final(self).action_consumed == old(self).action_consumed
                        &&& final(self).failed is None
                    },
                }
            }),
    {
        if let Some(e) = self.failed {
            return Err(e);
        }
        proof {
            self.lemma_top();
        }
        let n = self.open.len();
        let found = if n == 0 {
            self.root.renders.find(key.location)
        } else {
            self.open[n - 1].level.renders.find(key.location)
        };
        match found {
            Some(p) => {
                let kind = if n == 0 {
                    self.root.renders.entries[p].key.kind
                } else {
                    self.open[n - 1].level.renders.entries[p].key.kind
                };
                if kind != key.kind {
                    let e = BuildError::KindMismatch { expected: key.kind, found: kind };
                    self.failed = Some(e);
                    return Err(e);
                }
                let ghost old_open = self.open@;
                let slot = if n == 0 {
                    self.root.renders.take(p)
                } else {
                    self.open[n - 1].level.renders.take(p)
                };
                proof {
                    if n > 0 {
                        assert(self.open@ =~= old_open.update(n - 1, self.open@[n - 1]));
                    }
                }
                let Slot { key: k, dead: _, item: Node { mut object, mut state, action, children } } =
                    slot;
                state.requests.requires_im_pass = false;
                let mut ctx = ElementCtx::for_state(&state);
                object.update(&mut ctx, props);
                ctx.apply_to(&mut state.requests);
                if action.is_some() {
                    self.action_consumed = true;
                }
                let level = Level::start(children);
                let opened = OpenNode {
                    slot: Slot {
                        key: k,
                        dead: false,
                        item: Node { object, state, action: None, children: Scope::new() },
                    },
                    level,
                };
                let ghost mid = *self;
                self.open.push(opened);
                proof {
                    assert(self.levels() =~= mid.levels().push(opened.level@));
                    assert(self.slots().drop_last() =~= mid.slots());
                    assert(mid.slots() =~= old(self).slots()) by {
                        if n > 0 {
                            assert(mid.open@ =~= old_open.update(n - 1, mid.open@[n - 1]));
                        }
                    }
                    assert(mid.levels() =~= old(self).levels().update(
                        n as int,
                        mid.levels()[n as int],
                    ));
                    if old(self).settled() {
                        let top = old(self).top();
                        assert(all_settled(top.renders));
                        lemma_settled_mark(top.renders, top.render_index, p as int);
                        lemma_children_settled(top.renders[p as int].item);
                        lemma_levels_update(old(self).levels(), n as int, mid.levels()[n as int]);
                        lemma_levels_push(mid.levels(), opened.level@);
                    }
                    if old(self).ids_ok() {
                        let c = self.counter.0 as nat;
                        let top = old(self).top();
                        assert(all_ids_at_most(top.renders, c));
                        lemma_ids_mark(c, top.renders, top.render_index, p as int);
                        assert(node_ids_at_most(top.renders[p as int].item, c));
                        lemma_children_ids(c, top.renders[p as int].item);
                        lemma_levels_ids_update(c, old(self).levels(), n as int, mid.levels()[n as int]);
                        lemma_levels_ids_push(c, mid.levels(), opened.level@);
                        assert forall|o: int| 0 <= o < self.slots().len() implies (#[trigger] self.slots()[o]).item.state.id.0
                            <= self.counter.0 by {
                            if o < mid.slots().len() {
                                assert(self.slots()[o] == mid.slots()[o]);
                            }
                        }
                    }
                }
                Ok(action)
            },
            None => {
                if !self.counter.can_generate() {
                    let e = BuildError::IdsExhausted;
                    self.failed = Some(e);
                    return Err(e);
                }
                let id = self.counter.generate_id();
                let state = ChildState::new(id, None);
                let opened = OpenNode {
                    slot: Slot {
                        key,
                        dead: false,
                        item: Node { object: props, state, action: None, children: Scope::new() },
                    },
                    level: Level::start(Scope::new()),
                };
                let ghost mid = *self;
                self.open.push(opened);
                proof {
                    assert(self.levels() =~= mid.levels().push(opened.level@));
                    assert(self.slots().drop_last() =~= mid.slots());
                    assert(opened.level@.states =~= Seq::<Slot<Hook<T, M>>>::empty());
                    assert(opened.level@.renders =~= Seq::<Slot<Node<W, T, M, A>>>::empty());
                    if old(self).settled() {
                        lemma_levels_push(mid.levels(), opened.level@);
                    }
                    if old(self).ids_ok() {
                        let c = old(self).counter.0 as nat;
                        lemma_levels_ids_grow(mid.levels(), c, c + 1);
                        lemma_levels_ids_push((c + 1) as nat, mid.levels(), opened.level@);
                        assert forall|o: int| 0 <= o < self.slots().len() implies (#[trigger] self.slots()[o]).item.state.id.0
                            <= self.counter.0 by {
                            if o < mid.slots().len() {
                                assert(self.slots()[o] == mid.slots()[o]);
                            }
                        }
                    }
                }
                Ok(None)
            },
        }
    }
}

impl<W, T, M, A> Ui<W, T, M, A> {
    /// Ends the innermost open node: its children are pruned, its
    /// descendant filter is rebuilt from them, and the node enters its
    /// parent's scope at the parent's cursor.
    pub fn end_node(&mut self) -> (r: Result<(), BuildError>)
        requires
            old(self).wf(),
        ensures
            final(self).wf(),
            old(self).ids_ok() ==> final(self).ids_ok(),
            old(self).settled() ==> final(self).settled(),
            old(self).failed is Some ==> r == Err::<(), BuildError>(old(self).failed->Some_0)
                && *final(self) == *old(self),
            old(self).failed is None && old(self).open@.len() == 0 ==> r == Err::<(), BuildError>(
                BuildError::NoOpenNode,
            ) && aborted(*old(self), *final(self), r),
            old(self).failed is None && old(self).open@.len() > 0 ==> ({
                let n = old(self).open@.len() as int;
                let o = old(self).open@[n - 1];
                let parent = old(self).levels()[n - 1];
                let kids = survivors(o.level@.renders, o.level@.render_index);
                let closed = final(self).levels()[n - 1].renders[parent.render_index];
                &&& r == Ok::<(), BuildError>(())
                &&& final(self).levels() == old(self).levels().drop_last().update(
                    n - 1,
                    LevelView {
                        renders: parent.renders.insert(parent.render_index, closed),
                        render_index: parent.render_index + 1,
                        ..parent
                    },
                )
                &&& final(self).slots() == old(self).slots().drop_last()
                &&& closed.key == o.slot.key
                &&& !closed.dead
                &&& closed.item.object == o.slot.item.object
                &&& closed.item.action == o.slot.item.action
                &&& closed.item.state == ChildState {
                    children: crate::bloom::Bloom { bits: bloom_bits(kids) },
                    ..o.slot.item.state
                }
                &&& closed.item.children.states@ == survivors(o.level@.states, o.level@.state_index)
                &&& closed.item.children.renders@ == kids
                &&& final(self).counter == old(self).counter
                &&& final(self).action_consumed == old(self).action_consumed
                &&& final(self).failed is None
            }),
    {
        if let Some(e) = self.failed {
            return Err(e);
        }
        proof {
            self.lemma_top();
        }
        if self.open.len() == 0 {
            let e = BuildError::NoOpenNode;
            self.failed = Some(e);
            return Err(e);
        }
        let ghost old_levels = self.levels();
        let ghost old_slots = self.slots();
        let o = self.open.pop().unwrap();
        let ghost popped = *self;
        proof {
            assert(popped.levels() =~= old_levels.drop_last());
            assert(popped.slots() =~= old_slots.drop_last());
            popped.lemma_top();
        }
        let OpenNode { slot, level } = o;
        let children = level.close();
        let Slot { key, dead: _, item: Node { object, mut state, action, children: _ } } = slot;
        state.children = children_bloom(&children.renders);
        let closed = Slot { key, dead: false, item: Node { object, state, action, children } };
        let n = self.open.len();
        if n == 0 {
            self.root.renders.put_back(closed);
        } else {
            self.open[n - 1].level.renders.put_back(closed);
        }
        proof {
            self.lemma_top();
            if n > 0 {
                assert(self.open@ =~= popped.open@.update(n - 1, self.open@[n - 1]));
            }
            assert(self.levels() =~= popped.levels().update(n as int, self.levels()[n as int]));
            assert(self.slots() =~= popped.slots());
            if old(self).settled() {
                let lv = old_levels[n + 1];
                assert(all_settled(lv.renders));
                lemma_settled_take(lv.renders, lv.render_index);
                lemma_tree_ok(closed.item.children);
                assert(node_ok(closed.item));
                let parent = old_levels[n as int];
                lemma_settled_insert(parent.renders, parent.render_index, closed);
                lemma_levels_update(old_levels, n as int, self.levels()[n as int]);
                assert(popped.levels().update(n as int, self.levels()[n as int]) =~= old_levels.update(
                    n as int,
                    self.levels()[n as int],
                ).drop_last());
            }
            if old(self).ids_ok() {
                let c = self.counter.0 as nat;
                let lv = old_levels[n + 1];
                assert(all_ids_at_most(lv.renders, c));
                lemma_ids_take(c, lv.renders, lv.render_index);
                lemma_ids_at_most(closed.item.children, c);
                assert(old_slots[n as int] == o.slot);
                assert(node_ids_at_most(closed.item, c));
                let parent = old_levels[n as int];
                lemma_ids_insert(c, parent.renders, parent.render_index, closed);
                lemma_levels_ids_update(c, old_levels, n as int, self.levels()[n as int]);
                assert(popped.levels().update(n as int, self.levels()[n as int]) =~= old_levels.update(
                    n as int,
                    self.levels()[n as int],
                ).drop_last());
                assert forall|q: int| 0 <= q < self.slots().len() implies (#[trigger] self.slots()[q]).item.state.id.0
                    <= self.counter.0 by {
                    assert(self.slots()[q] == old_slots[q]);
                }
            }
        }
        Ok(())
    }

    /// The slot that `r` names, while its scope is being built.
    pub open spec fn hook_at(&self, r: StateRef) -> Option<Hook<T, M>> {
        if r.depth < self.levels().len() && r.index < self.levels()[r.depth as int].states.len() {
            Some(self.levels()[r.depth as int].states[r.index as int].item)
        } else {
            None
        }
    }

    /// Asks, in the current scope, for the state slot at `key`, made from
    /// `init` if no slot matches. Matching and marking follow `request`,
    /// over the scope's state slots alone.
    pub fn use_state(&mut self, key: Key, init: Hook<T, M>) -> (r: Result<StateRef, BuildError>)
        requires
            old(self).wf(),
        ensures
            final(self).wf(),
            old(self).ids_ok() ==> final(self).ids_ok(),
            old(self).settled() ==> final(self).settled(),
            old(self).failed is Some ==> r == Err::<StateRef, BuildError>(old(self).failed->Some_0)
                && *final(self) == *old(self),
            old(self).failed is None ==> ({
                let top = old(self).top();
                match first_match(top.states, top.state_index, key.location) {
                    Some(p) => if top.states[p].key.kind != key.kind {
                        &&& r == Err::<StateRef, BuildError>(
                            BuildError::KindMismatch { expected: key.kind, found: top.states[p].key.kind },
                        )
                        &&& aborted(*old(self), *final(self), r)
                    } else {
                        state_granted(*old(self), *final(self), key, init, r)
                    },
                    None => state_granted(*old(self), *final(self), key, init, r),
                }
            }),
    {
        if let Some(e) = self.failed {
            return Err(e);
        }
        proof {
            self.lemma_top();
        }
        let n = self.open.len();
        let found = if n == 0 {
            self.root.states.find(key.location)
        } else {
            self.open[n - 1].level.states.find(key.location)
        };
        let ghost old_open = self.open@;
        match found {
            Some(p) => {
                let kind = if n == 0 {
                    self.root.states.entries[p].key.kind
                } else {
                    self.open[n - 1].level.states.entries[p].key.kind
                };
                if kind != key.kind {
                    let e = BuildError::KindMismatch { expected: key.kind, found: kind };
                    self.failed = Some(e);
                    return Err(e);
                }
                if n == 0 {
                    self.root.states.claim(p);
                } else {
                    self.open[n - 1].level.states.claim(p);
                }
            },
            None => {
                if n == 0 {
                    self.root.states.insert(key, init);
                } else {
                    self.open[n - 1].level.states.insert(key, init);
                }
            },
        }
        proof {
            if n > 0 {
                assert(self.open@ =~= old_open.update(n - 1, self.open@[n - 1]));
            }
            assert(self.levels() =~= old(self).levels().update(n as int, self.levels()[n as int]));
            assert(self.slots() =~= old(self).slots());
            if old(self).settled() {
                assert(self.levels()[n as int].renders == old(self).levels()[n as int].renders);
                lemma_levels_update(old(self).levels(), n as int, self.levels()[n as int]);
            }
            if old(self).ids_ok() {
                assert(self.levels()[n as int].renders == old(self).levels()[n as int].renders);
                lemma_levels_ids_update(self.counter.0 as nat, old(self).levels(), n as int, self.levels()[n as int]);
            }
        }
        let index = if n == 0 {
            self.root.states.index - 1
        } else {
            self.open[n - 1].level.states.index - 1
        };
        Ok(StateRef { depth: n, index })
    }

    /// Reads the slot that `r` names.
    pub fn hook(&self, r: StateRef) -> (h: Option<&Hook<T, M>>)
        ensures
            match h {
                Some(v) => self.hook_at(r) == Some(*v),
                None => self.hook_at(r) is None,
            },
    {
        proof {
            self.lemma_top();
        }
        if r.depth == 0 {
            if r.index < self.root.states.entries.len() {
                Some(&self.root.states.entries[r.index].item)
            } else {
                None
            }
        } else if r.depth - 1 < self.open.len() {
            let d = r.depth - 1;
            if r.index < self.open[d].level.states.entries.len() {
                Some(&self.open[d].level.states.entries[r.index].item)
            } else {
                None
            }
        } else {
            None
        }
    }
}

impl<W, T, M, A> Ui<W, T, M, A> {
    /// The levels of this pass with the slot that `r` names holding `h`.
    pub open spec fn levels_with_hook(&self, r: StateRef, h: Hook<T, M>) -> Seq<LevelView<W, T, M, A>> {
        let lv = self.levels()[r.depth as int];
        let e = lv.states[r.index as int];
        self.levels().update(
            r.depth as int,
            LevelView { states: lv.states.update(r.index as int, Slot { item: h, ..e }), ..lv },
        )
    }

    proof fn lemma_with_hook_settled(&self, r: StateRef)
        requires
            self.settled(),
            self.hook_at(r) is Some,
        ensures
            forall|h: Hook<T, M>| levels_settled(#[trigger] self.levels_with_hook(r, h)),
    {
        assert forall|h: Hook<T, M>| levels_settled(#[trigger] self.levels_with_hook(r, h)) by {
            let ls = self.levels_with_hook(r, h);
            assert forall|l: int| 0 <= l < ls.len() implies all_settled(#[trigger] ls[l].renders) by {
                assert(ls[l].renders == self.levels()[l].renders);
            }
        }
    }

    /// The slot that `r` names, to change in place.
    pub fn hook_mut(&mut self, r: StateRef) -> (h: Option<&mut Hook<T, M>>)
        requires
            old(self).wf(),
        ensures
            match h {
                Some(v) => {
                    &&& old(self).hook_at(r) == Some(*v)
                    &&& final(self).levels() == old(self).levels_with_hook(r, *final(v))
                    &&& final(self).slots() == old(self).slots()
                    &&& final(self).counter == old(self).counter
                    &&& final(self).action_consumed == old(self).action_consumed
                    &&& final(self).failed == old(self).failed
                    &&& final(self).wf()
                    &&& old(self).settled() ==> final(self).settled()
                },
                None => old(self).hook_at(r) is None && *final(self) == *old(self),
            },
    {
        proof {
            self.lemma_top();
            if self.settled() && self.hook_at(r) is Some {
                self.lemma_with_hook_settled(r);
            }
        }
        if r.depth == 0 {
            if r.index < self.root.states.entries.len() {
                Some(&mut self.root.states.entries[r.index].item)
            } else {
                None
            }
        } else if r.depth - 1 < self.open.len() {
            let d = r.depth - 1;
            if r.index < self.open[d].level.states.entries.len() {
                Some(&mut self.open[d].level.states.entries[r.index].item)
            } else {
                None
            }
        } else {
            None
        }
    }
}

/// The slot that a request for `key` would match in the current scope.
pub open spec fn matched_hook<W, T, M, A>(ui: Ui<W, T, M, A>, key: Key) -> Option<Slot<Hook<T, M>>> {
    let top = ui.top();
    match first_match(top.states, top.state_index, key.location) {
        Some(p) => Some(top.states[p]),
        None => None,
    }
}

impl<W, T, M, A> Ui<W, T, M, A> {
    /// Asks for the mutable cell at `key`, made holding `init` if no slot
    /// matches; a matched slot keeps the value it holds.
    pub fn use_cell(&mut self, key: Key, init: T) -> (r: Result<StateRef, BuildError>)
        requires
            old(self).wf(),
        ensures
            final(self).wf(),
            old(self).ids_ok() ==> final(self).ids_ok(),
            old(self).settled() ==> final(self).settled(),
            old(self).failed is Some ==> r == Err::<StateRef, BuildError>(old(self).failed->Some_0)
                && *final(self) == *old(self),
            old(self).failed is None ==> (match matched_hook(*old(self), key) {
                Some(e) => if e.key.kind != key.kind {
                    &&& r == Err::<StateRef, BuildError>(
                        BuildError::KindMismatch { expected: key.kind, found: e.key.kind },
                    )
                    &&& aborted(*old(self), *final(self), r)
                } else if e.item is Store {
                    &&& r == Err::<StateRef, BuildError>(BuildError::HookMismatch)
                    &&& aborted(*old(self), *final(self), r)
                } else {
                    state_granted(*old(self), *final(self), key, Hook::Cell(init), r)
                },
                None => state_granted(*old(self), *final(self), key, Hook::Cell(init), r),
            }),
    {
        if let Some(e) = self.failed {
            return Err(e);
        }
        proof {
            self.lemma_top();
        }
        let n = self.open.len();
        let found = if n == 0 {
            self.root.states.find(key.location)
        } else {
            self.open[n - 1].level.states.find(key.location)
        };
        if let Some(p) = found {
            let is_store = if n == 0 {
                self.root.states.entries[p].item.is_store()
            } else {
                self.open[n - 1].level.states.entries[p].item.is_store()
            };
            let kind = if n == 0 {
                self.root.states.entries[p].key.kind
            } else {
                self.open[n - 1].level.states.entries[p].key.kind
            };
            if kind == key.kind && is_store {
                let e = BuildError::HookMismatch;
                self.failed = Some(e);
                return Err(e);
            }
        }
        self.use_state(key, Hook::Cell(init))
    }

    /// Asks for the store at `key`, made holding `init` with nothing queued
    /// if no slot matches. A matched store first folds every message
    /// queued since the last pass into its state, oldest first, through
    /// `reducer`; the description then sees the folded state.
    pub fn use_store<F: Fn(&T, M) -> T>(&mut self, key: Key, init: T, reducer: &F) -> (r: Result<
        StateRef,
        BuildError,
    >)
        requires
            old(self).wf(),
            forall|s: &T, m: M| #[trigger] reducer.requires((s, m)),
        ensures
            final(self).wf(),
            old(self).ids_ok() ==> final(self).ids_ok(),
            old(self).settled() ==> final(self).settled(),
            old(self).failed is Some ==> r == Err::<StateRef, BuildError>(old(self).failed->Some_0)
                && *final(self) == *old(self),
            old(self).failed is None ==> ({
                let top = old(self).top();
                let n = old(self).levels().len() as int;
                match first_match(top.states, top.state_index, key.location) {
                    Some(p) => if top.states[p].key.kind != key.kind {
                        &&& r == Err::<StateRef, BuildError>(
                            BuildError::KindMismatch { expected: key.kind, found: top.states[p].key.kind },
                        )
                        &&& aborted(*old(self), *final(self), r)
                    } else if let Hook::Store(o) = top.states[p].item {
                        &&& r == Ok::<StateRef, BuildError>(StateRef { depth: (n - 1) as usize, index: p as usize })
                        &&& final(self).hook_at(r->Ok_0) matches Some(Hook::Store(f))
                        &&& ({
                            let f = final(self).hook_at(r->Ok_0)->Some_0->Store_0;
                            &&& f.msg.view() == Seq::<M>::empty()
                            &&& folds_to(*reducer, o.state, o.msg.view(), f.state)
                            &&& final(self).levels() == old(self).levels().update(
                                n - 1,
                                LevelView {
                                    states: mark_dead(top.states, top.state_index, p).update(
                                        p,
                                        Slot { item: Hook::Store(f), ..top.states[p] },
                                    ),
                                    state_index: p + 1,
                                    ..top
                                },
                            )
                            &&& final(self).slots() == old(self).slots()
                            &&& final(self).counter == old(self).counter
                            &&& final(self).action_consumed == old(self).action_consumed
                            &&& final(self).failed is None
                        })
                    } else {
                        &&& r == Err::<StateRef, BuildError>(BuildError::HookMismatch)
                        &&& aborted(*old(self), *final(self), r)
                    },
                    None => {
                        &&& r is Ok
                        &&& final(self).hook_at(r->Ok_0) matches Some(Hook::Store(f))
                        &&& ({
                            let f = final(self).hook_at(r->Ok_0)->Some_0->Store_0;
                            &&& f.state == init
                            &&& f.msg.view() == Seq::<M>::empty()
                            &&& state_granted(*old(self), *final(self), key, Hook::Store(f), r)
                        })
                    },
                }
            }),
    {
        if let Some(e) = self.failed {
            return Err(e);
        }
        proof {
            self.lemma_top();
        }
        let n = self.open.len();
        let found = if n == 0 {
            self.root.states.find(key.location)
        } else {
            self.open[n - 1].level.states.find(key.location)
        };
        if let Some(p) = found {
            let is_store = if n == 0 {
                self.root.states.entries[p].item.is_store()
            } else {
                self.open[n - 1].level.states.entries[p].item.is_store()
            };
            let kind = if n == 0 {
                self.root.states.entries[p].key.kind
            } else {
                self.open[n - 1].level.states.entries[p].key.kind
            };
            if kind == key.kind && !is_store {
                let e = BuildError::HookMismatch;
                self.failed = Some(e);
                return Err(e);
            }
        }
        let fresh = StoreObject::new(init);
        let ghost fresh_hook = Hook::Store(fresh);
        let r = self.use_state(key, Hook::Store(fresh));
        match r {
            Ok(sr) => {
                let ghost granted = *self;
                proof {
                    granted.lemma_top();
                    let top = old(self).top();
                    let nn = n as int;
                    let (s1, c1) = request(top.states, top.state_index, key, fresh_hook);
                    assert(granted.levels()[nn].states == s1);
                    match first_match(top.states, top.state_index, key.location) {
                        Some(p) => {
                            assert(s1[p] == top.states[p]);
                        },
                        None => {
                            assert(s1[top.state_index] == Slot { key, dead: false, item: fresh_hook });
                        },
                    }
                }
                match self.hook_mut(sr) {
                    Some(h) => {
                        match h {
                            Hook::Store(o) => {
                                o.apply_pending(reducer);
                            },
                            Hook::Cell(_) => {},
                        }
                    },
                    None => {},
                }
                proof {
                    self.lemma_top();
                    let top = old(self).top();
                    let nn = n as int;
                    let f = self.hook_at(sr)->Some_0;
                    match first_match(top.states, top.state_index, key.location) {
                        Some(p) => {
                            let lv = granted.levels()[nn];
                            assert(lv.states.update(p, Slot { item: f, ..lv.states[p] }) =~= mark_dead(
                                top.states,
                                top.state_index,
                                p,
                            ).update(p, Slot { item: f, ..top.states[p] }));
                        },
                        None => {
                            let (s1, c1) = request(top.states, top.state_index, key, f);
                            assert(granted.levels_with_hook(sr, f)[nn].states =~= s1);
                            assert(self.levels() =~= old(self).levels().update(
                                nn,
                                LevelView { states: s1, state_index: c1, ..top },
                            ));
                        },
                    }
                }
                Ok(sr)
            },
            Err(e) => Err(e),
        }
    }

    /// Ends the pass: a pass that a refusal aborted fails with it;
    /// otherwise nodes still open are ended as if their descriptions
    /// stopped here, and the root scope is pruned. Hands back the tree and
    /// whether the pass consumed an action. A pass over a settled tree
    /// leaves it settled: no entry anywhere is left marked dead, and every
    /// descendant filter is up to date.
    pub fn finish(self) -> (r: Result<(Tree<W, T, M, A>, bool), BuildError>)
        requires
            self.wf(),
        ensures
            self.failed matches Some(e) ==> r == Err::<(Tree<W, T, M, A>, bool), BuildError>(e),
            self.failed is None ==> r is Ok,
            r matches Ok(t) ==> {
                &&& t.1 == self.action_consumed
                &&& t.0.counter == self.counter
                &&& self.settled() ==> tree_ok(t.0.root)
                &&& self.ids_ok() ==> ids_at_most(t.0.root, t.0.counter.0 as nat)
                &&& forall|i: int| 0 <= i < t.0.root.states@.len() ==> !(#[trigger] t.0.root.states@[i]).dead
                &&& forall|i: int| 0 <= i < t.0.root.renders@.len() ==> !(#[trigger] t.0.root.renders@[i]).dead
                &&& self.open@.len() == 0 ==> t.0.root.states@ == survivors(
                    self.root@.states,
                    self.root@.state_index,
                ) && t.0.root.renders@ == survivors(self.root@.renders, self.root@.render_index)
            },
    {
        if let Some(e) = self.failed {
            return Err(e);
        }
        let mut ui = self;
        while ui.open.len() > 0
            invariant
                ui.wf(),
                ui.counter == self.counter,
                ui.action_consumed == self.action_consumed,
                ui.failed is None,
                self.open@.len() == 0 ==> ui.root == self.root && ui.open@.len() == 0,
                self.settled() ==> ui.settled(),
                self.ids_ok() ==> ui.ids_ok(),
            decreases ui.open@.len(),
        {
            let _ = ui.end_node();
            assert(ui.slots().len() == ui.open@.len());
        }
        let consumed = ui.action_consumed;
        let counter = ui.counter;
        proof {
            ui.lemma_top();
            if self.settled() {
                assert(all_settled(ui.levels()[0].renders));
                lemma_settled_take(ui.root@.renders, ui.root@.render_index);
            }
            if self.ids_ok() {
                assert(all_ids_at_most(ui.levels()[0].renders, counter.0 as nat));
                lemma_ids_take(counter.0 as nat, ui.root@.renders, ui.root@.render_index);
            }
        }
        let root = ui.root.close();
        proof {
            lemma_tree_ok(root);
            lemma_ids_at_most(root, counter.0 as nat);
        }
        Ok((Tree { root, counter }, consumed))
    }
}

impl<T> crate::state::Mutable<T> {
    /// Asks for this cell's slot at `key`, made from the cell's initial
    /// value if no slot matches.
    pub fn use_in<W, M, A>(self, ui: &mut Ui<W, T, M, A>, key: Key) -> (r: Result<StateRef, BuildError>)
        requires
            old(ui).wf(),
        ensures
            final(ui).wf(),
            old(ui).ids_ok() ==> final(ui).ids_ok(),
            old(ui).settled() ==> final(ui).settled(),
            old(ui).failed is Some ==> r == Err::<StateRef, BuildError>(old(ui).failed->Some_0)
                && *final(ui) == *old(ui),
            old(ui).failed is None ==> (match matched_hook(*old(ui), key) {
                Some(e) => if e.key.kind != key.kind {
                    &&& r == Err::<StateRef, BuildError>(
                        BuildError::KindMismatch { expected: key.kind, found: e.key.kind },
                    )
                    &&& aborted(*old(ui), *final(ui), r)
                } else if e.item is Store {
                    &&& r == Err::<StateRef, BuildError>(BuildError::HookMismatch)
                    &&& aborted(*old(ui), *final(ui), r)
                } else {
                    state_granted(*old(ui), *final(ui), key, Hook::Cell(self.init), r)
                },
                None => state_granted(*old(ui), *final(ui), key, Hook::Cell(self.init), r),
            }),
    {
        ui.use_cell(key, self.init)
    }
}

} // verus!
