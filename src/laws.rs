//! What a pass does to a collection, stated over the model of `cursor`.
use crate::cursor::{first_match, live, mark_dead, pass, request, run, Slot};
use crate::key::Key;
use crate::tree::{slot_total, slots_under, Node, Scope};
use vstd::prelude::*;

verus! {

/// No entry of `s` is marked dead.
pub open spec fn no_dead<X>(s: Seq<Slot<X>>) -> bool {
    forall|i: int| 0 <= i < s.len() ==> !(#[trigger] s[i]).dead
}

/// The requests `keys` ask, in order, for the locations of the entries of
/// `s` from position `from` on.
pub open spec fn asks_for<X>(keys: Seq<Key>, s: Seq<Slot<X>>, from: int) -> bool {
    &&& 0 <= from
    &&& from + keys.len() <= s.len()
    &&& forall|i: int| 0 <= i < keys.len() ==> (#[trigger] keys[i]).location == s[from + i].key.location
}

/// No entry of `s` has `location`.
pub open spec fn absent<X>(s: Seq<Slot<X>>, location: u64) -> bool {
    forall|i: int| 0 <= i < s.len() ==> (#[trigger] s[i]).key.location != location
}

proof fn lemma_first_match_none<X>(s: Seq<Slot<X>>, from: int, location: u64)
    requires
        0 <= from,
        forall|j: int| from <= j < s.len() ==> (#[trigger] s[j]).key.location != location,
    ensures
        first_match(s, from, location) is None,
    decreases s.len() - from,
{
    if from < s.len() {
        lemma_first_match_none(s, from + 1, location);
    }
}

proof fn lemma_mark_none<X>(s: Seq<Slot<X>>, c: int)
    ensures
        mark_dead(s, c, c) == s,
{
    assert(mark_dead(s, c, c) =~= s);
}

proof fn lemma_run_matching<X>(s: Seq<Slot<X>>, c: int, keys: Seq<Key>, fresh: Seq<X>)
    requires
        asks_for(keys, s, c),
    ensures
        run(s, c, keys, fresh) == (s, c + keys.len()),
    decreases keys.len(),
{
    if keys.len() > 0 {
        assert(keys[0].location == s[c].key.location);
        assert(first_match(s, c, keys[0].location) == Some(c));
        lemma_mark_none(s, c);
        assert(request(s, c, keys[0], fresh[0]) == (s, c + 1));
        let k1 = keys.drop_first();
        assert forall|i: int| 0 <= i < k1.len() implies (#[trigger] k1[i]).location == s[c + 1
            + i].key.location by {
            assert(k1[i] == keys[i + 1]);
        }
        lemma_run_matching(s, c + 1, k1, fresh.drop_first());
    }
}

proof fn lemma_run_append<X>(
    s: Seq<Slot<X>>,
    c: int,
    k1: Seq<Key>,
    k2: Seq<Key>,
    f1: Seq<X>,
    f2: Seq<X>,
)
    requires
        f1.len() == k1.len(),
    ensures
        run(s, c, k1 + k2, f1 + f2) == run(run(s, c, k1, f1).0, run(s, c, k1, f1).1, k2, f2),
    decreases k1.len(),
{
    if k1.len() > 0 {
        assert((k1 + k2)[0] == k1[0]);
        assert((f1 + f2)[0] == f1[0]);
        assert((k1 + k2).drop_first() =~= k1.drop_first() + k2);
        assert((f1 + f2).drop_first() =~= f1.drop_first() + f2);
        let (s1, c1) = request(s, c, k1[0], f1[0]);
        lemma_run_append(s1, c1, k1.drop_first(), k2, f1.drop_first(), f2);
    } else {
        assert(k1 + k2 =~= k2);
        assert(f1 + f2 =~= f2);
    }
}

proof fn lemma_live_no_dead<X>(s: Seq<Slot<X>>)
    requires
        no_dead(s),
    ensures
        live(s) == s,
    decreases s.len(),
{
    if s.len() > 0 {
        assert(!s[s.len() - 1].dead);
        lemma_live_no_dead(s.drop_last());
        assert(s.drop_last().push(s.last()) =~= s);
    }
}

proof fn lemma_live_append<X>(a: Seq<Slot<X>>, b: Seq<Slot<X>>)
    ensures
        live(a + b) == live(a) + live(b),
    decreases b.len(),
{
    if b.len() == 0 {
        assert(a + b =~= a);
        assert(live(a) + live(b) =~= live(a));
    } else {
        assert((a + b).drop_last() =~= a + b.drop_last());
        assert((a + b).last() == b.last());
        lemma_live_append(a, b.drop_last());
        if !b.last().dead {
            assert(live(a) + live(b.drop_last()).push(b.last()) =~= (live(a) + live(
                b.drop_last(),
            )).push(b.last()));
        }
    }
}

proof fn lemma_live_one_dead<X>(e: Slot<X>)
    requires
        e.dead,
    ensures
        live(seq![e]) == Seq::<Slot<X>>::empty(),
{
    let s = seq![e];
    assert(s.last() == e);
    assert(s.drop_last() =~= Seq::<Slot<X>>::empty());
    assert(live(s.drop_last()) == s.drop_last());
}

/// A pass that asks again for exactly the entries a settled collection
/// holds, in their order, marks nothing dead, inserts nothing and leaves
/// the collection as it was: the same entries, holding the same items.
pub proof fn lemma_pass_idempotent<X>(s: Seq<Slot<X>>, keys: Seq<Key>, fresh: Seq<X>)
    requires
        no_dead(s),
        keys.len() == s.len(),
        asks_for(keys, s, 0),
    ensures
        run(s, 0, keys, fresh) == (s, s.len() as int),
        pass(s, keys, fresh) == s,
{
    lemma_run_matching(s, 0, keys, fresh);
    assert(s.take(s.len() as int) =~= s);
    lemma_live_no_dead(s);
}

/// Asking, between the entries `a` and `c` of a settled collection, for a
/// location that the collection does not hold creates exactly one entry,
/// from the fresh item offered for that request, and keeps every other
/// entry as it was.
pub proof fn lemma_pass_insertion<X>(
    a: Seq<Slot<X>>,
    c: Seq<Slot<X>>,
    ka: Seq<Key>,
    x: Key,
    kc: Seq<Key>,
    fresh: Seq<X>,
)
    requires
        no_dead(a),
        no_dead(c),
        ka.len() == a.len(),
        kc.len() == c.len(),
        asks_for(ka, a, 0),
        asks_for(kc, c, 0),
        absent(a + c, x.location),
        fresh.len() == ka.len() + 1 + kc.len(),
    ensures
        pass(a + c, ka + seq![x] + kc, fresh) == a + seq![
            Slot { key: x, dead: false, item: fresh[a.len() as int] },
        ] + c,
{
    let s = a + c;
    let n = a.len() as int;
    let fa = fresh.take(n);
    let fr = fresh.skip(n);
    assert(fa + fr =~= fresh);
    let rest = seq![x] + kc;
    assert(ka + seq![x] + kc =~= ka + rest);
    assert(asks_for(ka, s, 0)) by {
        assert forall|i: int| 0 <= i < ka.len() implies (#[trigger] ka[i]).location == s[0
            + i].key.location by {
            assert(s[i] == a[i]);
        }
    }
    lemma_run_matching(s, 0, ka, fa);
    lemma_run_append(s, 0, ka, rest, fa, fr);
    // the inserted request
    assert forall|j: int| n <= j < s.len() implies (#[trigger] s[j]).key.location
        != x.location by {
        assert(s[j] == (a + c)[j]);
    }
    lemma_first_match_none(s, n, x.location);
    let new = Slot { key: x, dead: false, item: fr[0] };
    let s1 = s.insert(n, new);
    assert(rest[0] == x);
    assert(request(s, n, x, fr[0]) == (s1, n + 1));
    assert(rest.drop_first() =~= kc);
    assert(s1 =~= a + seq![new] + c);
    assert(asks_for(kc, s1, n + 1)) by {
        assert forall|i: int| 0 <= i < kc.len() implies (#[trigger] kc[i]).location == s1[n + 1
            + i].key.location by {
            assert(s1[n + 1 + i] == c[i]);
        }
    }
    lemma_run_matching(s1, n + 1, kc, fr.drop_first());
    assert(run(s, n, rest, fr) == (s1, s1.len() as int));
    assert(s1.take(s1.len() as int) =~= s1);
    assert(no_dead(s1)) by {
        assert forall|i: int| 0 <= i < s1.len() implies !(#[trigger] s1[i]).dead by {
            if i < n {
                assert(s1[i] == a[i]);
            } else if i > n {
                assert(s1[i] == c[i - n - 1]);
            }
        }
    }
    lemma_live_no_dead(s1);
    assert(fresh[n] == fr[0]);
}

/// Leaving out, in a pass over a settled collection, the one entry `e`
/// that stood between `a` and `c` removes it (and with it everything it
/// owns) by the end of the pass, and keeps every other entry as it was.
pub proof fn lemma_pass_removal<X>(
    a: Seq<Slot<X>>,
    e: Slot<X>,
    c: Seq<Slot<X>>,
    ka: Seq<Key>,
    kc: Seq<Key>,
    fresh: Seq<X>,
)
    requires
        no_dead(a),
        no_dead(c),
        ka.len() == a.len(),
        kc.len() == c.len(),
        asks_for(ka, a, 0),
        asks_for(kc, c, 0),
        absent(c, e.key.location),
        fresh.len() == ka.len() + kc.len(),
    ensures
        pass(a + seq![e] + c, ka + kc, fresh) == a + c,
{
    let s = a + seq![e] + c;
    let n = a.len() as int;
    let fa = fresh.take(n);
    let fr = fresh.skip(n);
    assert(fa + fr =~= fresh);
    assert(asks_for(ka, s, 0)) by {
        assert forall|i: int| 0 <= i < ka.len() implies (#[trigger] ka[i]).location == s[0
            + i].key.location by {
            assert(s[i] == a[i]);
        }
    }
    lemma_run_matching(s, 0, ka, fa);
    lemma_run_append(s, 0, ka, kc, fa, fr);
    if kc.len() == 0 {
        assert(run(s, n, kc, fr) == (s, n));
        assert(s.take(n) =~= a);
        lemma_live_no_dead(a);
        assert(a + c =~= a);
    } else {
        assert(s[n] == e);
        assert(s[n + 1] == c[0]);
        assert(kc[0].location == c[0].key.location);
        assert(e.key.location != c[0].key.location);
        assert(first_match(s, n + 1, kc[0].location) == Some(n + 1));
        assert(first_match(s, n, kc[0].location) == Some(n + 1));
        let s1 = mark_dead(s, n, n + 1);
        let dead_e = Slot { key: e.key, dead: true, item: e.item };
        assert(s1 =~= a + seq![dead_e] + c);
        assert(request(s, n, kc[0], fr[0]) == (s1, n + 2));
        let k1 = kc.drop_first();
        assert(asks_for(k1, s1, n + 2)) by {
            assert forall|i: int| 0 <= i < k1.len() implies (#[trigger] k1[i]).location == s1[n + 2
                + i].key.location by {
                assert(k1[i] == kc[i + 1]);
                assert(s1[n + 2 + i] == c[i + 1]);
            }
        }
        lemma_run_matching(s1, n + 2, k1, fr.drop_first());
        assert(run(s, n, kc, fr) == (s1, s1.len() as int));
        assert(s1.take(s1.len() as int) =~= s1);
        lemma_live_append(a + seq![dead_e], c);
        lemma_live_append(a, seq![dead_e]);
        lemma_live_no_dead(a);
        lemma_live_no_dead(c);
        lemma_live_one_dead(dead_e);
        assert(a + Seq::<Slot<X>>::empty() =~= a);
    }
}

/// Matching only looks forward: when two neighbouring entries `x`, `y` of
/// a settled collection are asked for in swapped order, `y` keeps its
/// entry, while `x`, now asked for after the cursor passed it, is created
/// anew from the fresh item and its old entry is removed.
pub proof fn lemma_pass_swap_recreates<X>(
    a: Seq<Slot<X>>,
    x: Slot<X>,
    y: Slot<X>,
    c: Seq<Slot<X>>,
    ka: Seq<Key>,
    ky: Key,
    kx: Key,
    kc: Seq<Key>,
    fresh: Seq<X>,
)
    requires
        no_dead(a),
        no_dead(c),
        !y.dead,
        ka.len() == a.len(),
        kc.len() == c.len(),
        asks_for(ka, a, 0),
        asks_for(kc, c, 0),
        kx.location == x.key.location,
        ky.location == y.key.location,
        x.key.location != y.key.location,
        absent(c, x.key.location),
        fresh.len() == ka.len() + 2 + kc.len(),
    ensures
        pass(a + seq![x, y] + c, ka + seq![ky, kx] + kc, fresh) == a + seq![
            y,
            Slot { key: kx, dead: false, item: fresh[a.len() as int + 1] },
        ] + c,
{
    let s = a + seq![x, y] + c;
    let n = a.len() as int;
    let fa = fresh.take(n);
    let fr = fresh.skip(n);
    assert(fa + fr =~= fresh);
    let rest = seq![ky, kx] + kc;
    assert(ka + seq![ky, kx] + kc =~= ka + rest);
    assert(asks_for(ka, s, 0)) by {
        assert forall|i: int| 0 <= i < ka.len() implies (#[trigger] ka[i]).location == s[0
            + i].key.location by {
            assert(s[i] == a[i]);
        }
    }
    lemma_run_matching(s, 0, ka, fa);
    lemma_run_append(s, 0, ka, rest, fa, fr);
    // `y` is found one step past the cursor
    assert(s[n] == x);
    assert(s[n + 1] == y);
    assert(first_match(s, n + 1, ky.location) == Some(n + 1));
    assert(first_match(s, n, ky.location) == Some(n + 1));
    let dead_x = Slot { key: x.key, dead: true, item: x.item };
    let s1 = mark_dead(s, n, n + 1);
    assert(s1 =~= a + seq![dead_x, y] + c);
    assert(rest[0] == ky);
    assert(request(s, n, ky, fr[0]) == (s1, n + 2));
    // `x` is no longer ahead of the cursor
    let r1 = rest.drop_first();
    let f1 = fr.drop_first();
    assert(r1[0] == kx);
    assert forall|j: int| n + 2 <= j < s1.len() implies (#[trigger] s1[j]).key.location
        != kx.location by {
        assert(s1[j] == c[j - n - 2]);
    }
    lemma_first_match_none(s1, n + 2, kx.location);
    let new = Slot { key: kx, dead: false, item: f1[0] };
    let s2 = s1.insert(n + 2, new);
    assert(request(s1, n + 2, kx, f1[0]) == (s2, n + 3));
    assert(s2 =~= a + seq![dead_x, y, new] + c);
    assert(r1.drop_first() =~= kc);
    assert(asks_for(kc, s2, n + 3)) by {
        assert forall|i: int| 0 <= i < kc.len() implies (#[trigger] kc[i]).location == s2[n + 3
            + i].key.location by {
            assert(s2[n + 3 + i] == c[i]);
        }
    }
    lemma_run_matching(s2, n + 3, kc, f1.drop_first());
    assert(run(s1, n + 2, r1, f1) == (s2, s2.len() as int));
    assert(run(s, n, rest, fr) == (s2, s2.len() as int));
    assert(s2.take(s2.len() as int) =~= s2);
    assert(a + seq![dead_x, y, new] + c =~= a + seq![dead_x] + seq![y, new] + c);
    lemma_live_append(a + seq![dead_x] + seq![y, new], c);
    lemma_live_append(a + seq![dead_x], seq![y, new]);
    lemma_live_append(a, seq![dead_x]);
    lemma_live_no_dead(a);
    lemma_live_no_dead(c);
    assert(no_dead(seq![y, new]));
    lemma_live_no_dead(seq![y, new]);
    lemma_live_one_dead(dead_x);
    assert(fresh[n + 1] == f1[0]);
    assert(a + Seq::<Slot<X>>::empty() =~= a);
    assert(a + seq![y, new] + c =~= a + seq![y, Slot { key: kx, dead: false, item: fresh[n + 1] }]
        + c);
}

/// Opening the node at `key` and ending it again does to its scope what
/// `request` does: a matched node is taken out at `p` and put back at the
/// same place, so the scope reads as `request` left it with the entry at
/// `p` replaced by the ended node; a new node enters at the cursor exactly
/// as `request` inserts it. Either way the cursor ends up where `request`
/// leaves it.
pub proof fn lemma_open_then_end_is_request<X>(s: Seq<Slot<X>>, c: int, key: Key, ended: Slot<X>)
    requires
        0 <= c <= s.len(),
    ensures
        match first_match(s, c, key.location) {
            Some(p) => {
                &&& mark_dead(s, c, p).remove(p).insert(p, ended) == request(s, c, key, ended.item).0.update(
                    p,
                    ended,
                )
                &&& p + 1 == request(s, c, key, ended.item).1
            },
            None => {
                &&& ended == (Slot { key, dead: false, item: ended.item }) ==> s.insert(c, ended) == request(
                    s,
                    c,
                    key,
                    ended.item,
                ).0
                &&& c + 1 == request(s, c, key, ended.item).1
            },
        },
{
    crate::cursor::lemma_first_match_found(s, c, key.location);
    if let Some(p) = first_match(s, c, key.location) {
        let m = mark_dead(s, c, p);
        assert(m.remove(p).insert(p, ended) =~= m.update(p, ended));
    }
}

/// The state slots under the nodes `rs`, each node's subtree counted.
pub open spec fn slots_of<W, T, M, A>(rs: Seq<Slot<Node<W, T, M, A>>>) -> nat
    decreases rs.len(),
{
    if rs.len() == 0 {
        0
    } else {
        slots_of(rs.drop_last()) + slot_total(rs.last().item.children)
    }
}

proof fn lemma_slots_under_is_slots_of<W, T, M, A>(s: Scope<W, T, M, A>, k: int)
    requires
        0 <= k <= s.renders@.len(),
    ensures
        slots_under(s.renders@, k, s) == slots_of(s.renders@.take(k)),
    decreases k,
{
    if k > 0 {
        lemma_slots_under_is_slots_of(s, k - 1);
        assert(s.renders@.take(k).drop_last() =~= s.renders@.take(k - 1));
    }
}

proof fn lemma_slots_of_append<W, T, M, A>(a: Seq<Slot<Node<W, T, M, A>>>, b: Seq<Slot<Node<W, T, M, A>>>)
    ensures
        slots_of(a + b) == slots_of(a) + slots_of(b),
    decreases b.len(),
{
    if b.len() == 0 {
        assert(a + b =~= a);
    } else {
        assert((a + b).drop_last() =~= a + b.drop_last());
        assert((a + b).last() == b.last());
        lemma_slots_of_append(a, b.drop_last());
    }
}

/// A scope's state slots, counted through every depth, are its own and
/// those under each of its nodes.
pub proof fn lemma_slot_total<W, T, M, A>(s: Scope<W, T, M, A>)
    ensures
        slot_total(s) == s.states@.len() + slots_of(s.renders@),
{
    lemma_slots_under_is_slots_of(s, s.renders@.len() as int);
    assert(s.renders@.take(s.renders@.len() as int) =~= s.renders@);
}

/// Removing the node `e` from between `a` and `c`, as a pass that leaves it
/// out does, frees exactly the state slots in and under `e`: the scope
/// then holds that many fewer, counted through every depth.
pub proof fn lemma_removal_frees_slots<W, T, M, A>(
    before: Scope<W, T, M, A>,
    after: Scope<W, T, M, A>,
    a: Seq<Slot<Node<W, T, M, A>>>,
    e: Slot<Node<W, T, M, A>>,
    c: Seq<Slot<Node<W, T, M, A>>>,
)
    requires
        before.states@ == after.states@,
        before.renders@ == a + seq![e] + c,
        after.renders@ == a + c,
    ensures
        slot_total(after) + slot_total(e.item.children) == slot_total(before),
{
    lemma_slot_total(before);
    lemma_slot_total(after);
    lemma_slots_of_append(a + seq![e], c);
    lemma_slots_of_append(a, seq![e]);
    lemma_slots_of_append(a, c);
    let one = seq![e];
    assert(one.drop_last() =~= Seq::<Slot<Node<W, T, M, A>>>::empty());
    assert(one.last() == e);
    assert(slots_of(one.drop_last()) == 0);
    assert(slots_of(one) == slots_of(one.drop_last()) + slot_total(one.last().item.children));
}

} // verus!
