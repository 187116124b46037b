//! The retained tree: per scope, state slots and structural nodes, each
//! node owning the scope of its children.
use crate::bloom::{id_bit, Bloom};
use crate::constraints::{Constraints, Point, Size};
use crate::context::ElementCtx;
use crate::cursor::Slot;
use crate::event::{Event, Handled};
use crate::id::{ChildCounter, ChildId};
use crate::node::ChildState;
use crate::state::Hook;
use vstd::prelude::*;

verus! {

/// What every structural node's object does. A description of an object
/// is a value of the object's own type; `A` is the type of the actions it
/// emits.
pub trait RenderObject<A>: Sized {
    /// Brings this object up to date with `props`, asking through `ctx`
    /// for a layout or paint where the change calls for one. Given the
    /// description it already follows, it should ask for nothing.
    fn update(&mut self, ctx: &mut ElementCtx, props: Self);

    /// Reacts to `event`, given in the node's own coordinates, before the
    /// node's children see it. Reports whether it handled the event, and
    /// the action it emits, if any.
    fn event(&mut self, ctx: &mut ElementCtx, event: &Event) -> (Handled, Option<A>);

    /// Takes note of a change in the node's situation.
    fn lifecycle(&mut self, ctx: &mut ElementCtx, event: &LifeCycle);

    /// The constraints for the node's child `index` of `count`, within
    /// the node's own `constraints`.
    fn child_constraints(
        &mut self,
        ctx: &mut ElementCtx,
        constraints: &Constraints,
        index: usize,
        count: usize,
    ) -> Constraints;

    /// The node's own size, and the origin of each child, given the sizes
    /// the children took.
    fn arrange(&mut self, ctx: &mut ElementCtx, constraints: &Constraints, sizes: &Vec<Size>) -> Arrangement;
}

/// A change in a node's situation, told to its object.
#[derive(Clone, Copy, Debug, PartialEq, Eq, Structural)]
pub enum LifeCycle {
    /// The pointer came over the node (`true`) or left it.
    HotChanged(bool),
    /// The node gained keyboard focus (`true`) or lost it.
    FocusChanged(bool),
}

/// What a node's object decides in layout: its size, and where each of its
/// children goes, in its own coordinates.
pub struct Arrangement {
    pub size: Size,
    pub origins: Vec<Point>,
}

/// A structural node: its render object, its transient state, the action
/// it has emitted and no pass has consumed yet, and its children.
pub struct Node<W, T, M, A> {
    pub object: W,
    pub state: ChildState,
    pub action: Option<A>,
    pub children: Scope<W, T, M, A>,
}

/// The two collections of one scope; a state slot never answers a request
/// for a node, nor the other way round.
pub struct Scope<W, T, M, A> {
    pub states: Vec<Slot<Hook<T, M>>>,
    pub renders: Vec<Slot<Node<W, T, M, A>>>,
}

/// The bits of the descendant filter of a node whose children are `s`:
/// each child's identity, and everything under it.
pub open spec fn bloom_bits<W, T, M, A>(s: Seq<Slot<Node<W, T, M, A>>>) -> u64
    decreases s.len(),
{
    if s.len() == 0 {
        0
    } else {
        bloom_bits(s.drop_last()) | id_bit(s.last().item.state.id) | s.last().item.state.children.bits
    }
}

/// Filter bits depend only on the children's identities and filters.
pub proof fn lemma_bloom_bits_same<W, T, M, A>(a: Seq<Slot<Node<W, T, M, A>>>, b: Seq<Slot<Node<W, T, M, A>>>)
    requires
        a.len() == b.len(),
        forall|i: int|
            0 <= i < a.len() ==> (#[trigger] a[i]).item.state.id == b[i].item.state.id
                && a[i].item.state.children == b[i].item.state.children,
    ensures
        bloom_bits(a) == bloom_bits(b),
    decreases a.len(),
{
    if a.len() > 0 {
        let da = a.drop_last();
        let db = b.drop_last();
        assert forall|i: int| 0 <= i < da.len() implies (#[trigger] da[i]).item.state.id
            == db[i].item.state.id && da[i].item.state.children == db[i].item.state.children by {
            assert(da[i] == a[i]);
            assert(db[i] == b[i]);
        }
        lemma_bloom_bits_same(da, db);
        assert(a[a.len() - 1].item.state.id == b[b.len() - 1].item.state.id);
    }
}

/// The descendant filter of a node whose children are `renders`.
pub fn children_bloom<W, T, M, A>(renders: &Vec<Slot<Node<W, T, M, A>>>) -> (r: Bloom)
    ensures
        r.bits == bloom_bits(renders@),
{
    let mut bloom = Bloom::new();
    let mut i: usize = 0;
    while i < renders.len()
        invariant
            i <= renders.len(),
            bloom.bits == bloom_bits(renders@.take(i as int)),
        decreases renders.len() - i,
    {
        let st = &renders[i].item.state;
        bloom.add(st.id);
        bloom = bloom.union(st.children);
        proof {
            let t = renders@.take(i as int + 1);
            assert(t.drop_last() =~= renders@.take(i as int));
        }
        i = i + 1;
    }
    proof {
        assert(renders@.take(i as int) =~= renders@);
    }
    bloom
}

impl<W, T, M, A> Node<W, T, M, A> {
    /// Records `action` for the next pass to consume. A node keeps at most
    /// one: an action emitted before the last one was consumed replaces it.
    pub fn emit_action(&mut self, action: A)
        ensures
            final(self).action == Some(action),
            final(self).object == old(self).object,
            final(self).state == old(self).state,
            final(self).children == old(self).children,
    {
        self.action = Some(action);
    }
}

impl<W, T, M, A> Scope<W, T, M, A> {
    pub fn new() -> (r: Self)
        ensures
            r.states@.len() == 0,
            r.renders@.len() == 0,
    {
        Scope { states: Vec::new(), renders: Vec::new() }
    }
}

/// The retained tree, and the counter that hands out node identities.
pub struct Tree<W, T, M, A> {
    pub root: Scope<W, T, M, A>,
    pub counter: ChildCounter,
}

impl<W, T, M, A> Tree<W, T, M, A> {
    /// An empty tree.
    pub fn new() -> (r: Self)
        ensures
            r.root.states@.len() == 0,
            r.root.renders@.len() == 0,
            r.counter.0 == 0,
            tree_ok(r.root),
            ids_at_most(r.root, r.counter.0 as nat),
    {
        let r = Tree { root: Scope::new(), counter: ChildCounter::new() };
        proof {
            lemma_tree_ok(r.root);
            lemma_ids_at_most(r.root, 0);
        }
        r
    }
}

/// The number of state slots in `s` and in every scope under it.
pub open spec fn slot_total<W, T, M, A>(s: Scope<W, T, M, A>) -> nat
    decreases s,
{
    s.states@.len() + slots_under(s.renders@, s.renders@.len() as int, s)
}

/// The state slots under the first `k` nodes of `s`. (`rs` is always
/// `s.renders@`; naming it lets the recursion be measured.)
pub open spec fn slots_under<W, T, M, A>(rs: Seq<Slot<Node<W, T, M, A>>>, k: int, s: Scope<W, T, M, A>) -> nat
    decreases s, k,
{
    if k <= 0 || rs != s.renders@ || k > rs.len() {
        0
    } else {
        slots_under(rs, k - 1, s) + slot_total(rs[k - 1].item.children)
    }
}

/// The node that `path` leads to from `s`: `path[0]` picks a node of `s`,
/// the rest of the path goes on from that node's children.
pub open spec fn node_at<W, T, M, A>(s: Scope<W, T, M, A>, path: Seq<usize>) -> Option<Node<W, T, M, A>>
    decreases path.len(),
{
    if path.len() == 0 || path[0] >= s.renders@.len() {
        None
    } else if path.len() == 1 {
        Some(s.renders@[path[0] as int].item)
    } else {
        node_at(s.renders@[path[0] as int].item.children, path.drop_first())
    }
}

proof fn lemma_slots_under_grows<W, T, M, A>(s: Scope<W, T, M, A>, j: int, k: int)
    requires
        0 <= j <= k <= s.renders@.len(),
    ensures
        slots_under(s.renders@, j, s) <= slots_under(s.renders@, k, s),
    decreases k - j,
{
    if j < k {
        lemma_slots_under_grows(s, j, k - 1);
    }
}

impl<W, T, M, A> Scope<W, T, M, A> {
    /// The number of state slots in this scope and every scope under it.
    pub fn slot_count(&self) -> (r: usize)
        requires
            slot_total(*self) <= usize::MAX,
        ensures
            r == slot_total(*self),
        decreases *self,
    {
        let mut total = self.states.len();
        let mut i: usize = 0;
        while i < self.renders.len()
            invariant
                i <= self.renders@.len(),
                total == self.states@.len() + slots_under(self.renders@, i as int, *self),
                slot_total(*self) <= usize::MAX,
            decreases self.renders@.len() - i,
        {
            proof {
                lemma_slots_under_grows(*self, i as int + 1, self.renders@.len() as int);
            }
            let sub = self.renders[i].item.children.slot_count();
            total = total + sub;
            i = i + 1;
        }
        total
    }

    /// A path to the node with identity `id`, if one is found. A node
    /// whose descendant filter rules `id` out is not searched.
    pub fn path_to(&self, id: ChildId) -> (r: Option<Vec<usize>>)
        ensures
            r matches Some(p) ==> node_at(*self, p@) matches Some(n) && n.state.id == id,
            tree_ok(*self) && holds_id(*self, id) ==> r is Some,
        decreases *self,
    {
        proof {
            lemma_tree_ok(*self);
        }
        let mut i: usize = 0;
        while i < self.renders.len()
            invariant
                i <= self.renders@.len(),
                tree_ok(*self) ==> !holds_in(self.renders@, i as int, *self, id),
                tree_ok(*self) ==> forall|j: int|
                    0 <= j < self.renders@.len() ==> !(#[trigger] self.renders@[j]).dead && node_ok(
                        self.renders@[j].item,
                    ),
            decreases self.renders@.len() - i,
        {
            let node = &self.renders[i].item;
            if node.state.id.0 == id.0 {
                let mut p = Vec::new();
                p.push(i);
                return Some(p);
            }
            if node.state.children.may_contain(id) {
                match node.children.path_to(id) {
                    Some(rest) => {
                        let mut p = Vec::new();
                        p.push(i);
                        let mut j: usize = 0;
                        while j < rest.len()
                            invariant
                                j <= rest@.len(),
                                p@ == seq![i] + rest@.take(j as int),
                            decreases rest@.len() - j,
                        {
                            p.push(rest[j]);
                            j = j + 1;
                            proof {
                                assert(p@ =~= seq![i] + rest@.take(j as int));
                            }
                        }
                        proof {
                            assert(rest@.take(j as int) =~= rest@);
                            assert(p@.drop_first() =~= rest@);
                            assert(rest@.len() > 0);
                        }
                        return Some(p);
                    },
                    None => {},
                }
            } else {
                proof {
                    if tree_ok(*self) {
                        let c = node.children;
                        assert(node_ok(*node));
                        if holds_id(c, id) {
                            assert(holds_in(c.renders@, c.renders@.len() as int, c, id));
                            lemma_filter_covers(c, c.renders@.len() as int, id);
                            assert(c.renders@.take(c.renders@.len() as int) =~= c.renders@);
                        }
                    }
                }
            }
            proof {
                if tree_ok(*self) {
                    assert(node_ok(*node));
                    assert(!holds_id(node.children, id));
                }
            }
            i = i + 1;
        }
        None
    }
}

/// A settled scope: no entry in it or under it is marked dead, and every
/// node's descendant filter is the one its children make.
pub open spec fn tree_ok<W, T, M, A>(s: Scope<W, T, M, A>) -> bool
    decreases s,
{
    &&& forall|i: int| 0 <= i < s.states@.len() ==> !(#[trigger] s.states@[i]).dead
    &&& renders_ok(s.renders@, s.renders@.len() as int, s)
}

/// The first `k` nodes of `s` are live and settled (`rs` is `s.renders@`).
pub open spec fn renders_ok<W, T, M, A>(rs: Seq<Slot<Node<W, T, M, A>>>, k: int, s: Scope<W, T, M, A>) -> bool
    decreases s, k,
{
    if k <= 0 || rs != s.renders@ || k > rs.len() {
        true
    } else {
        &&& renders_ok(rs, k - 1, s)
        &&& !rs[k - 1].dead
        &&& rs[k - 1].item.state.children.bits == bloom_bits(rs[k - 1].item.children.renders@)
        &&& tree_ok(rs[k - 1].item.children)
    }
}

/// A settled node: its filter is the one its children make, and its
/// children are settled.
pub open spec fn node_ok<W, T, M, A>(n: Node<W, T, M, A>) -> bool {
    n.state.children.bits == bloom_bits(n.children.renders@) && tree_ok(n.children)
}

/// `tree_ok` node by node.
pub proof fn lemma_tree_ok<W, T, M, A>(s: Scope<W, T, M, A>)
    ensures
        tree_ok(s) <==> (forall|i: int| 0 <= i < s.states@.len() ==> !(#[trigger] s.states@[i]).dead)
            && (forall|i: int|
            0 <= i < s.renders@.len() ==> !(#[trigger] s.renders@[i]).dead && node_ok(
                s.renders@[i].item,
            )),
{
    lemma_renders_ok(s, s.renders@.len() as int);
}

proof fn lemma_renders_ok<W, T, M, A>(s: Scope<W, T, M, A>, k: int)
    requires
        0 <= k <= s.renders@.len(),
    ensures
        renders_ok(s.renders@, k, s) <==> (forall|i: int|
            0 <= i < k ==> !(#[trigger] s.renders@[i]).dead && node_ok(s.renders@[i].item)),
    decreases k,
{
    if k > 0 {
        lemma_renders_ok(s, k - 1);
    }
}

/// Some node in `s`, or under it, has identity `id`.
pub open spec fn holds_id<W, T, M, A>(s: Scope<W, T, M, A>, id: ChildId) -> bool
    decreases s,
{
    holds_in(s.renders@, s.renders@.len() as int, s, id)
}

/// Some node among the first `k` of `s`, or under one of them, has
/// identity `id` (`rs` is `s.renders@`).
pub open spec fn holds_in<W, T, M, A>(rs: Seq<Slot<Node<W, T, M, A>>>, k: int, s: Scope<W, T, M, A>, id: ChildId) -> bool
    decreases s, k,
{
    if k <= 0 || rs != s.renders@ || k > rs.len() {
        false
    } else {
        holds_in(rs, k - 1, s, id) || rs[k - 1].item.state.id == id || holds_id(
            rs[k - 1].item.children,
            id,
        )
    }
}

/// In a settled scope, the filter bits of the nodes hold every identity
/// found among them or under them.
pub proof fn lemma_filter_covers<W, T, M, A>(s: Scope<W, T, M, A>, k: int, id: ChildId)
    requires
        tree_ok(s),
        0 <= k <= s.renders@.len(),
        holds_in(s.renders@, k, s, id),
    ensures
        bloom_bits(s.renders@.take(k)) & id_bit(id) != 0,
    decreases s, k,
{
    let rs = s.renders@;
    let t = rs.take(k);
    assert(t.drop_last() =~= rs.take(k - 1));
    assert(t.last() == rs[k - 1]);
    let m = id_bit(id);
    let prev = bloom_bits(rs.take(k - 1));
    let own = id_bit(rs[k - 1].item.state.id);
    let below = rs[k - 1].item.state.children.bits;
    assert(bloom_bits(t) == prev | own | below);
    if holds_in(rs, k - 1, s, id) {
        lemma_filter_covers(s, k - 1, id);
        assert(prev & m != 0 ==> (prev | own | below) & m != 0) by (bit_vector);
    } else if rs[k - 1].item.state.id == id {
        let k2 = (id.0 % 64) as u64;
        assert(own == 1u64 << k2);
        assert(m == 1u64 << k2);
        assert(k2 < 64 ==> (prev | (1u64 << k2) | below) & (1u64 << k2) != 0) by (bit_vector);
    } else {
        lemma_tree_ok(s);
        let c = rs[k - 1].item.children;
        assert(node_ok(rs[k - 1].item));
        assert(holds_id(c, id));
        assert(holds_in(c.renders@, c.renders@.len() as int, c, id));
        lemma_filter_covers(c, c.renders@.len() as int, id);
        assert(c.renders@.take(c.renders@.len() as int) =~= c.renders@);
        assert(below & m != 0 ==> (prev | own | below) & m != 0) by (bit_vector);
    }
}

/// Every node in `s`, or under it, has an identity of at most `c`.
pub open spec fn ids_at_most<W, T, M, A>(s: Scope<W, T, M, A>, c: nat) -> bool
    decreases s,
{
    ids_upto(s.renders@, s.renders@.len() as int, s, c)
}

/// The first `k` nodes of `s`, and everything under them, have identities
/// of at most `c` (`rs` is `s.renders@`).
pub open spec fn ids_upto<W, T, M, A>(rs: Seq<Slot<Node<W, T, M, A>>>, k: int, s: Scope<W, T, M, A>, c: nat) -> bool
    decreases s, k,
{
    if k <= 0 || rs != s.renders@ || k > rs.len() {
        true
    } else {
        &&& ids_upto(rs, k - 1, s, c)
        &&& rs[k - 1].item.state.id.0 <= c
        &&& ids_at_most(rs[k - 1].item.children, c)
    }
}

/// `n`, and everything under it, has an identity of at most `c`.
pub open spec fn node_ids_at_most<W, T, M, A>(n: Node<W, T, M, A>, c: nat) -> bool {
    n.state.id.0 <= c && ids_at_most(n.children, c)
}

/// `ids_at_most` node by node.
pub proof fn lemma_ids_at_most<W, T, M, A>(s: Scope<W, T, M, A>, c: nat)
    ensures
        ids_at_most(s, c) <==> forall|i: int|
            0 <= i < s.renders@.len() ==> node_ids_at_most(#[trigger] s.renders@[i].item, c),
{
    lemma_ids_upto(s, s.renders@.len() as int, c);
}

proof fn lemma_ids_upto<W, T, M, A>(s: Scope<W, T, M, A>, k: int, c: nat)
    requires
        0 <= k <= s.renders@.len(),
    ensures
        ids_upto(s.renders@, k, s, c) <==> (forall|i: int|
            0 <= i < k ==> node_ids_at_most(#[trigger] s.renders@[i].item, c)),
    decreases k,
{
    if k > 0 {
        lemma_ids_upto(s, k - 1, c);
    }
}

/// A bound on identities holds of every larger bound.
pub proof fn lemma_ids_grow<W, T, M, A>(s: Scope<W, T, M, A>, c: nat, d: nat)
    requires
        ids_at_most(s, c),
        c <= d,
    ensures
        ids_at_most(s, d),
    decreases s,
{
    lemma_ids_at_most(s, c);
    lemma_ids_at_most(s, d);
    assert forall|i: int| 0 <= i < s.renders@.len() implies node_ids_at_most(#[trigger] s.renders@[i].item, d) by {
        lemma_ids_grow(s.renders@[i].item.children, c, d);
    }
}

/// `a` and `b` hold, at every position and every depth, nodes with the
/// same identities.
pub open spec fn same_ids<W, T, M, A>(a: Scope<W, T, M, A>, b: Scope<W, T, M, A>) -> bool
    decreases a,
{
    a.renders@.len() == b.renders@.len() && same_ids_upto(a.renders@, b, a.renders@.len() as int, a)
}

/// The first `k` nodes of `a` and of `b` agree in identity at every depth
/// (`ra` is `a.renders@`).
pub open spec fn same_ids_upto<W, T, M, A>(
    ra: Seq<Slot<Node<W, T, M, A>>>,
    b: Scope<W, T, M, A>,
    k: int,
    a: Scope<W, T, M, A>,
) -> bool
    decreases a, k,
{
    if k <= 0 || ra != a.renders@ || k > ra.len() {
        true
    } else {
        &&& same_ids_upto(ra, b, k - 1, a)
        &&& k - 1 < b.renders@.len()
        &&& ra[k - 1].item.state.id == b.renders@[k - 1].item.state.id
        &&& same_ids(ra[k - 1].item.children, b.renders@[k - 1].item.children)
    }
}

proof fn lemma_same_ids_upto<W, T, M, A>(a: Scope<W, T, M, A>, b: Scope<W, T, M, A>, k: int)
    requires
        0 <= k <= a.renders@.len(),
        a.renders@.len() == b.renders@.len(),
    ensures
        same_ids_upto(a.renders@, b, k, a) <==> forall|i: int|
            0 <= i < k ==> (#[trigger] a.renders@[i]).item.state.id == b.renders@[i].item.state.id
                && same_ids(a.renders@[i].item.children, b.renders@[i].item.children),
    decreases k,
{
    if k > 0 {
        lemma_same_ids_upto(a, b, k - 1);
    }
}

/// `same_ids` node by node.
pub proof fn lemma_same_ids<W, T, M, A>(a: Scope<W, T, M, A>, b: Scope<W, T, M, A>)
    ensures
        same_ids(a, b) <==> a.renders@.len() == b.renders@.len() && forall|i: int|
            0 <= i < a.renders@.len() ==> (#[trigger] a.renders@[i]).item.state.id
                == b.renders@[i].item.state.id && same_ids(
                a.renders@[i].item.children,
                b.renders@[i].item.children,
            ),
{
    if a.renders@.len() == b.renders@.len() {
        lemma_same_ids_upto(a, b, a.renders@.len() as int);
    }
}

/// Every scope agrees with itself.
pub proof fn lemma_same_ids_refl<W, T, M, A>(a: Scope<W, T, M, A>)
    ensures
        same_ids(a, a),
    decreases a,
{
    assert forall|i: int| 0 <= i < a.renders@.len() implies same_ids(
        #[trigger] a.renders@[i].item.children,
        a.renders@[i].item.children,
    ) by {
        lemma_same_ids_refl(a.renders@[i].item.children);
    }
    lemma_same_ids(a, a);
}

/// Scopes that agree in identities agree in every bound on them.
pub proof fn lemma_same_ids_bound<W, T, M, A>(a: Scope<W, T, M, A>, b: Scope<W, T, M, A>, c: nat)
    requires
        same_ids(a, b),
        ids_at_most(a, c),
    ensures
        ids_at_most(b, c),
    decreases a,
{
    lemma_same_ids(a, b);
    lemma_ids_at_most(a, c);
    lemma_ids_at_most(b, c);
    assert forall|i: int| 0 <= i < b.renders@.len() implies node_ids_at_most(#[trigger] b.renders@[i].item, c) by {
        assert(node_ids_at_most(a.renders@[i].item, c));
        lemma_same_ids_bound(a.renders@[i].item.children, b.renders@[i].item.children, c);
    }
}

proof fn lemma_holds_upto<W, T, M, A>(s: Scope<W, T, M, A>, k: int, id: ChildId)
    requires
        0 <= k <= s.renders@.len(),
    ensures
        holds_in(s.renders@, k, s, id) <==> exists|i: int|
            0 <= i < k && ((#[trigger] s.renders@[i]).item.state.id == id || holds_id(
                s.renders@[i].item.children,
                id,
            )),
    decreases k,
{
    if k > 0 {
        lemma_holds_upto(s, k - 1, id);
        let e = s.renders@[k - 1];
        if e.item.state.id == id || holds_id(e.item.children, id) {
            assert(exists|i: int|
                0 <= i < k && ((#[trigger] s.renders@[i]).item.state.id == id || holds_id(
                    s.renders@[i].item.children,
                    id,
                )));
        }
    }
}

/// `holds_id` node by node.
pub proof fn lemma_holds_id<W, T, M, A>(s: Scope<W, T, M, A>, id: ChildId)
    ensures
        holds_id(s, id) <==> exists|i: int|
            0 <= i < s.renders@.len() && ((#[trigger] s.renders@[i]).item.state.id == id || holds_id(
                s.renders@[i].item.children,
                id,
            )),
{
    lemma_holds_upto(s, s.renders@.len() as int, id);
}

/// Scopes that agree in identities hold the same identities.
pub proof fn lemma_same_ids_holds<W, T, M, A>(a: Scope<W, T, M, A>, b: Scope<W, T, M, A>, id: ChildId)
    requires
        same_ids(a, b),
    ensures
        holds_id(a, id) == holds_id(b, id),
    decreases a,
{
    lemma_same_ids(a, b);
    lemma_holds_id(a, id);
    lemma_holds_id(b, id);
    assert forall|i: int| 0 <= i < a.renders@.len() implies holds_id(
        #[trigger] a.renders@[i].item.children,
        id,
    ) == holds_id(b.renders@[i].item.children, id) by {
        lemma_same_ids_holds(a.renders@[i].item.children, b.renders@[i].item.children, id);
    }
    if holds_id(a, id) {
        let i = choose|i: int|
            0 <= i < a.renders@.len() && ((#[trigger] a.renders@[i]).item.state.id == id || holds_id(
                a.renders@[i].item.children,
                id,
            ));
        assert(b.renders@[i].item.state.id == id || holds_id(b.renders@[i].item.children, id));
    }
    if holds_id(b, id) {
        let i = choose|i: int|
            0 <= i < b.renders@.len() && ((#[trigger] b.renders@[i]).item.state.id == id || holds_id(
                b.renders@[i].item.children,
                id,
            ));
        assert(a.renders@[i].item.state.id == id || holds_id(a.renders@[i].item.children, id));
    }
}

/// Agreement in identities carries over.
pub proof fn lemma_same_ids_trans<W, T, M, A>(a: Scope<W, T, M, A>, b: Scope<W, T, M, A>, c: Scope<W, T, M, A>)
    requires
        same_ids(a, b),
        same_ids(b, c),
    ensures
        same_ids(a, c),
    decreases a,
{
    lemma_same_ids(a, b);
    lemma_same_ids(b, c);
    assert forall|i: int| 0 <= i < a.renders@.len() implies same_ids(
        #[trigger] a.renders@[i].item.children,
        c.renders@[i].item.children,
    ) by {
        lemma_same_ids_trans(a.renders@[i].item.children, b.renders@[i].item.children, c.renders@[i].item.children);
    }
    lemma_same_ids(a, c);
}

/// No node in `s`, nor any under it, asks for a layout.
pub open spec fn layout_clear<W, T, M, A>(s: Scope<W, T, M, A>) -> bool
    decreases s,
{
    layout_clear_upto(s.renders@, s.renders@.len() as int, s)
}

/// `layout_clear` over the first `k` nodes of `s` (`rs` is `s.renders@`).
pub open spec fn layout_clear_upto<W, T, M, A>(rs: Seq<Slot<Node<W, T, M, A>>>, k: int, s: Scope<W, T, M, A>) -> bool
    decreases s, k,
{
    if k <= 0 || rs != s.renders@ || k > rs.len() {
        true
    } else {
        &&& layout_clear_upto(rs, k - 1, s)
        &&& !rs[k - 1].item.state.requests.requires_layout
        &&& layout_clear(rs[k - 1].item.children)
    }
}

proof fn lemma_layout_clear_upto<W, T, M, A>(s: Scope<W, T, M, A>, k: int)
    requires
        0 <= k <= s.renders@.len(),
    ensures
        layout_clear_upto(s.renders@, k, s) <==> forall|i: int|
            0 <= i < k ==> !(#[trigger] s.renders@[i]).item.state.requests.requires_layout && layout_clear(
                s.renders@[i].item.children,
            ),
    decreases k,
{
    if k > 0 {
        lemma_layout_clear_upto(s, k - 1);
    }
}

/// `layout_clear` node by node.
pub proof fn lemma_layout_clear<W, T, M, A>(s: Scope<W, T, M, A>)
    ensures
        layout_clear(s) <==> forall|i: int|
            0 <= i < s.renders@.len() ==> !(#[trigger] s.renders@[i]).item.state.requests.requires_layout
                && layout_clear(s.renders@[i].item.children),
{
    lemma_layout_clear_upto(s, s.renders@.len() as int);
}

} // verus!
