//! Forward-only matching of one keyed collection against the requests of a
//! pass.
use crate::key::Key;
use vstd::prelude::*;

verus! {

/// An entry of a scope's collection: what it holds, under which key, and
/// whether the current pass has passed over it.
pub struct Slot<X> {
    pub key: Key,
    pub dead: bool,
    pub item: X,
}

/// The first position at or after `from` whose key has `location`.
pub open spec fn first_match<X>(s: Seq<Slot<X>>, from: int, location: u64) -> Option<int>
    decreases s.len() - from,
{
    if from < 0 || from >= s.len() {
        None
    } else if s[from].key.location == location {
        Some(from)
    } else {
        first_match(s, from + 1, location)
    }
}

/// A match lies at or after where the search starts, and has the location.
pub proof fn lemma_first_match_found<X>(s: Seq<Slot<X>>, from: int, location: u64)
    ensures
        first_match(s, from, location) matches Some(p) ==> from <= p < s.len() && s[p].key.location
            == location,
    decreases s.len() - from,
{
    if 0 <= from < s.len() && s[from].key.location != location {
        lemma_first_match_found(s, from + 1, location);
    }
}

/// `s` with every entry in `[from, to)` marked dead.
pub open spec fn mark_dead<X>(s: Seq<Slot<X>>, from: int, to: int) -> Seq<Slot<X>> {
    Seq::new(
        s.len(),
        |j: int|
            if from <= j < to {
                Slot { key: s[j].key, dead: true, item: s[j].item }
            } else {
                s[j]
            },
    )
}

/// The entries of `s` that are not marked dead, in their order.
pub open spec fn live<X>(s: Seq<Slot<X>>) -> Seq<Slot<X>>
    decreases s.len(),
{
    if s.len() == 0 {
        s
    } else if s.last().dead {
        live(s.drop_last())
    } else {
        live(s.drop_last()).push(s.last())
    }
}

/// Nothing that `live` keeps is marked dead.
pub proof fn lemma_live_has_no_dead<X>(s: Seq<Slot<X>>)
    ensures
        forall|i: int| 0 <= i < live(s).len() ==> !(#[trigger] live(s)[i]).dead,
    decreases s.len(),
{
    if s.len() > 0 {
        lemma_live_has_no_dead(s.drop_last());
        if s.last().dead {
            assert(live(s) == live(s.drop_last()));
        } else {
            let l = live(s.drop_last());
            assert(live(s) == l.push(s.last()));
            assert forall|i: int| 0 <= i < l.push(s.last()).len() implies !(#[trigger] l.push(
                s.last(),
            )[i]).dead by {
                if i < l.len() {
                    assert(l.push(s.last())[i] == l[i]);
                }
            }
        }
    }
}

/// What one request for `key` does to a collection whose cursor is at
/// `cursor`: a match at or after the cursor marks everything it skipped
/// dead and moves the cursor past it; no match inserts `fresh` at the
/// cursor.
pub open spec fn request<X>(s: Seq<Slot<X>>, cursor: int, key: Key, fresh: X) -> (Seq<Slot<X>>, int) {
    match first_match(s, cursor, key.location) {
        Some(p) => (mark_dead(s, cursor, p), p + 1),
        None => (s.insert(cursor, Slot { key, dead: false, item: fresh }), cursor + 1),
    }
}

/// The requests `keys` made one after the other, the `i`th offering
/// `fresh[i]` for the case that it matches nothing.
pub open spec fn run<X>(s: Seq<Slot<X>>, cursor: int, keys: Seq<Key>, fresh: Seq<X>) -> (
    Seq<Slot<X>>,
    int,
)
    decreases keys.len(),
{
    if keys.len() == 0 {
        (s, cursor)
    } else {
        let (s1, c1) = request(s, cursor, keys[0], fresh[0]);
        run(s1, c1, keys.drop_first(), fresh.drop_first())
    }
}

/// What is left of `s` after the end of a pass that left the cursor at
/// `cursor`: everything from the cursor on is cut, then the dead entries
/// are dropped.
pub open spec fn survivors<X>(s: Seq<Slot<X>>, cursor: int) -> Seq<Slot<X>> {
    live(s.take(cursor))
}

/// A whole pass over `s` that requests `keys` in order.
pub open spec fn pass<X>(s: Seq<Slot<X>>, keys: Seq<Key>, fresh: Seq<X>) -> Seq<Slot<X>> {
    let (s1, c1) = run(s, 0, keys, fresh);
    survivors(s1, c1)
}

/// One collection of a scope, with the cursor of the pass that is under way.
pub struct Cursor<X> {
    pub entries: Vec<Slot<X>>,
    pub index: usize,
}

impl<X> Cursor<X> {
    pub open spec fn wf(&self) -> bool {
        self.index <= self.entries.len()
    }

    /// Starts a pass over `entries`.
    pub fn new(entries: Vec<Slot<X>>) -> (r: Self)
        ensures
            r.entries@ == entries@,
            r.index == 0,
            r.wf(),
    {
        Cursor { entries, index: 0 }
    }

    /// Where the next request for `location` matches, if anywhere.
    pub fn find(&self, location: u64) -> (r: Option<usize>)
        requires
            self.wf(),
        ensures
            match r {
                Some(p) => {
                    &&& first_match(self.entries@, self.index as int, location) == Some(p as int)
                    &&& self.index <= p < self.entries@.len()
                    &&& self.entries@[p as int].key.location == location
                },
                None => first_match(self.entries@, self.index as int, location) is None,
            },
    {
        let mut i = self.index;
        while i < self.entries.len()
            invariant
                self.index <= i <= self.entries.len(),
                first_match(self.entries@, self.index as int, location) == first_match(
                    self.entries@,
                    i as int,
                    location,
                ),
            decreases self.entries.len() - i,
        {
            if self.entries[i].key.location == location {
                proof {
                    lemma_first_match_found(self.entries@, i as int, location);
                }
                return Some(i);
            }
            i = i + 1;
        }
        None
    }

    /// Takes the match at `p`: what lies between the cursor and `p` is
    /// marked dead, and the cursor moves past `p`.
    pub fn claim(&mut self, p: usize)
        requires
            old(self).wf(),
            old(self).index <= p < old(self).entries.len(),
        ensures
            final(self).entries@ == mark_dead(old(self).entries@, old(self).index as int, p as int),
            final(self).index == p + 1,
            final(self).wf(),
    {
        let ghost s0 = self.entries@;
        let mut j = self.index;
        while j < p
            invariant
                old(self).index <= j <= p < self.entries.len(),
                self.index == old(self).index,
                s0 == old(self).entries@,
                self.entries@ == mark_dead(s0, old(self).index as int, j as int),
            decreases p - j,
        {
            self.entries[j].dead = true;
            j = j + 1;
            assert(self.entries@ =~= mark_dead(s0, old(self).index as int, j as int));
        }
        self.index = p + 1;
    }

    /// Inserts a new live entry at the cursor and moves the cursor past it.
    pub fn insert(&mut self, key: Key, item: X)
        requires
            old(self).wf(),
        ensures
            final(self).entries@ == old(self).entries@.insert(
                old(self).index as int,
                Slot { key, dead: false, item },
            ),
            final(self).index == old(self).index + 1,
            final(self).wf(),
    {
        self.entries.insert(self.index, Slot { key, dead: false, item });
        let n = self.entries.len();
        assert(self.index < n);
        self.index = self.index + 1;
    }

    /// Takes the match at `p` out of the collection to work on it; the
    /// cursor stays where it is to be put back.
    pub fn take(&mut self, p: usize) -> (r: Slot<X>)
        requires
            old(self).wf(),
            old(self).index <= p < old(self).entries.len(),
        ensures
            r == old(self).entries@[p as int],
            final(self).entries@ == mark_dead(old(self).entries@, old(self).index as int, p as int).remove(
                p as int,
            ),
            final(self).index == p,
            final(self).wf(),
    {
        self.claim(p);
        self.index = p;
        self.entries.remove(p)
    }

    /// Puts an entry back at the cursor and moves the cursor past it.
    pub fn put_back(&mut self, slot: Slot<X>)
        requires
            old(self).wf(),
        ensures
            final(self).entries@ == old(self).entries@.insert(old(self).index as int, slot),
            final(self).index == old(self).index + 1,
            final(self).wf(),
    {
        self.entries.insert(self.index, slot);
        let n = self.entries.len();
        assert(self.index < n);
        self.index = self.index + 1;
    }

    /// Ends the pass: cuts everything from the cursor on and drops the
    /// dead entries, keeping the order of the rest.
    pub fn finish(self) -> (r: Vec<Slot<X>>)
        requires
            self.wf(),
        ensures
            r@ == survivors(self.entries@, self.index as int),
            forall|i: int| 0 <= i < r@.len() ==> !(#[trigger] r@[i]).dead,
    {
        let mut rest = self.entries;
        rest.truncate(self.index);
        let ghost kept = rest@;
        let n = rest.len();
        let mut out: Vec<Slot<X>> = Vec::new();
        let mut k: usize = 0;
        while rest.len() > 0
            invariant
                k + rest.len() == kept.len(),
                n == kept.len(),
                rest@ == kept.skip(k as int),
                out@ == live(kept.take(k as int)),
            decreases rest.len(),
        {
            let e = rest.remove(0);
            assert(kept.take(k as int + 1).drop_last() =~= kept.take(k as int));
            assert(kept[k as int] == e);
            if !e.dead {
                out.push(e);
            }
            k = k + 1;
            assert(rest@ =~= kept.skip(k as int));
        }
        assert(kept.take(k as int) =~= kept);
        assert(self.entries@.take(self.index as int) =~= kept);
        proof {
            lemma_live_has_no_dead(kept);
        }
        out
    }
}

} // verus!
