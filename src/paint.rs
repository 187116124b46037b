//! The paint pass: the order in which nodes are painted, each within the
//! transform of its origin, and the order of the overlays queued meanwhile.
use crate::constraints::Point;
use crate::cursor::Slot;
use crate::id::ChildId;
use crate::tree::{Node, Scope};
use vstd::prelude::*;

verus! {

/// Overlay `a` runs before overlay `b`: it has the lower z-index, or the
/// same one and was queued first.
pub open spec fn runs_before(z: Seq<i32>, a: int, b: int) -> bool {
    z[a] < z[b] || (z[a] == z[b] && a < b)
}

/// The order in which overlays queued with z-indices `z` are painted:
/// ascending z-index, overlays with equal z-index in the order they were
/// queued. The result lists every queued overlay exactly once.
pub fn paint_order(z: &Vec<i32>) -> (r: Vec<usize>)
    ensures
        r@.len() == z@.len(),
        forall|i: int| 0 <= i < r@.len() ==> (#[trigger] r@[i]) < z@.len(),
        forall|i: int, j: int|
            0 <= i < j < r@.len() ==> runs_before(z@, #[trigger] r@[i] as int, #[trigger] r@[j] as int),
{
    let mut r: Vec<usize> = Vec::new();
    let mut k: usize = 0;
    while k < z.len()
        invariant
            k <= z@.len(),
            r@.len() == k,
            forall|i: int| 0 <= i < r@.len() ==> (#[trigger] r@[i]) < k,
            forall|i: int, j: int|
                0 <= i < j < r@.len() ==> runs_before(z@, #[trigger] r@[i] as int, #[trigger] r@[j] as int),
        decreases z@.len() - k,
    {
        let zk = z[k];
        let mut pos: usize = 0;
        while pos < r.len() && z[r[pos]] <= zk
            invariant
                pos <= r@.len(),
                r@.len() == k,
                k < z@.len(),
                zk == z@[k as int],
                forall|i: int| 0 <= i < r@.len() ==> (#[trigger] r@[i]) < k,
                forall|i: int| 0 <= i < pos ==> z@[(#[trigger] r@[i]) as int] <= zk,
            decreases r@.len() - pos,
        {
            pos = pos + 1;
        }
        proof {
            assert forall|i: int| pos <= i < r@.len() implies zk < z@[(#[trigger] r@[i]) as int] by {
                if i > pos {
                    assert(runs_before(z@, r@[pos as int] as int, r@[i] as int));
                }
            }
        }
        let ghost before = r@;
        r.insert(pos, k);
        proof {
            assert forall|i: int| 0 <= i < r@.len() implies (#[trigger] r@[i]) < k + 1 by {
                if i < pos {
                    assert(r@[i] == before[i]);
                } else if i > pos {
                    assert(r@[i] == before[i - 1]);
                }
            }
            assert forall|i: int, j: int| 0 <= i < j < r@.len() implies runs_before(
                z@,
                #[trigger] r@[i] as int,
                #[trigger] r@[j] as int,
            ) by {
                let bi = if i < pos { i } else { i - 1 };
                let bj = if j < pos { j } else { j - 1 };
                if i != pos as int && j != pos as int {
                    assert(r@[i] == before[bi]);
                    assert(r@[j] == before[bj]);
                    assert(runs_before(z@, before[bi] as int, before[bj] as int));
                } else if i == pos as int {
                    assert(r@[j] == before[j - 1]);
                    assert(zk < z@[before[j - 1] as int]);
                } else {
                    assert(r@[i] == before[i]);
                    assert(z@[before[i] as int] <= zk);
                    assert(before[i] < k);
                }
            }
        }
        k = k + 1;
    }
    r
}

/// One step of the paint pass, for the drawing backend to carry out.
#[derive(Clone, Copy, Debug, PartialEq, Eq, Structural)]
pub enum PaintCommand {
    /// Save the transform, move it by `offset` (the node's origin in its
    /// parent), and paint the node `id`.
    Enter { id: ChildId, offset: Point },
    /// Restore the transform saved by the matching `Enter`.
    Leave,
}

/// The paint pass over `s`, top down: each node in order is entered at its
/// origin and painted, then its children, then it is left.
pub open spec fn paint_seq<W, T, M, A>(s: Scope<W, T, M, A>) -> Seq<PaintCommand>
    decreases s,
{
    paint_upto(s.renders@, s.renders@.len() as int, s)
}

/// `paint_seq` over the first `k` nodes of `s` (`rs` is `s.renders@`).
pub open spec fn paint_upto<W, T, M, A>(rs: Seq<Slot<Node<W, T, M, A>>>, k: int, s: Scope<W, T, M, A>) -> Seq<
    PaintCommand,
>
    decreases s, k,
{
    if k <= 0 || rs != s.renders@ || k > rs.len() {
        Seq::empty()
    } else {
        paint_upto(rs, k - 1, s) + seq![
            PaintCommand::Enter { id: rs[k - 1].item.state.id, offset: rs[k - 1].item.state.origin },
        ] + paint_seq(rs[k - 1].item.children) + seq![PaintCommand::Leave]
    }
}

/// Appends the paint pass over `scope` to `out` (`paint_seq`). Overlays
/// that objects queue while they are painted run after the whole pass, in
/// `paint_order`.
pub fn paint_plan<W, T, M, A>(scope: &Scope<W, T, M, A>, out: &mut Vec<PaintCommand>)
    ensures
        final(out)@ == old(out)@ + paint_seq(*scope),
    decreases *scope,
{
    let ghost start = out@;
    let mut i: usize = 0;
    while i < scope.renders.len()
        invariant
            i <= scope.renders@.len(),
            out@ == start + paint_upto(scope.renders@, i as int, *scope),
        decreases scope.renders@.len() - i,
    {
        let st = &scope.renders[i].item.state;
        out.push(PaintCommand::Enter { id: st.id, offset: st.origin });
        let ghost mid = out@;
        paint_plan(&scope.renders[i].item.children, out);
        out.push(PaintCommand::Leave);
        proof {
            let rs = scope.renders@;
            assert(paint_upto(rs, i as int + 1, *scope) == paint_upto(rs, i as int, *scope) + seq![
                PaintCommand::Enter { id: rs[i as int].item.state.id, offset: rs[i as int].item.state.origin },
            ] + paint_seq(rs[i as int].item.children) + seq![PaintCommand::Leave]);
            assert(out@ =~= start + paint_upto(rs, i as int + 1, *scope));
        }
        i = i + 1;
    }
    proof {
        assert(paint_upto(scope.renders@, i as int, *scope) == paint_seq(*scope));
    }
}

} // verus!
