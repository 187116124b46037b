//! The convergence loop: build passes repeat within one frame until a pass
//! consumes no action.
use vstd::prelude::*;

verus! {

/// `n` passes from `x`, each of which consumed an action, can end in `end`.
pub open spec fn busy_run<X, F: Fn(X) -> (X, bool)>(pass: F, x: X, n: nat, end: X) -> bool
    decreases n,
{
    if n == 0 {
        end == x
    } else {
        exists|mid: X| busy_run(pass, x, (n - 1) as nat, mid) && #[trigger] pass.ensures((mid,), (end, true))
    }
}

/// `n` passes from `x` can end in `end`, the last consuming no action and
/// every one before it consuming one.
pub open spec fn settles<X, F: Fn(X) -> (X, bool)>(pass: F, x: X, n: nat, end: X) -> bool {
    &&& n >= 1
    &&& exists|mid: X| busy_run(pass, x, (n - 1) as nat, mid) && #[trigger] pass.ensures((mid,), (end, false))
}

#[derive(Clone, Copy, Debug, PartialEq, Eq, Structural)]
pub enum Phase {
    Building,
    Stable,
}

/// The loop's state: how many passes ran, and whether it has settled.
#[derive(Clone, Copy, Debug, PartialEq, Eq, Structural)]
pub struct Convergence {
    pub passes: usize,
    pub phase: Phase,
}

impl Convergence {
    /// A frame about to run its first pass.
    pub fn new() -> (r: Self)
        ensures
            r.passes == 0,
            r.phase == Phase::Building,
    {
        Convergence { passes: 0, phase: Phase::Building }
    }

    /// Records a pass that has run: one that consumed an action calls for
    /// another pass, one that consumed none settles the frame.
    pub fn after_pass(&mut self, action_consumed: bool) -> (r: Phase)
        requires
            old(self).passes < usize::MAX,
        ensures
            final(self).passes == old(self).passes + 1,
            final(self).phase == (if action_consumed {
                Phase::Building
            } else {
                Phase::Stable
            }),
            r == final(self).phase,
    {
        self.passes = self.passes + 1;
        self.phase = if action_consumed {
            Phase::Building
        } else {
            Phase::Stable
        };
        self.phase
    }

    pub fn is_stable(&self) -> (r: bool)
        ensures
            r == (self.phase == Phase::Stable),
    {
        match self.phase {
            Phase::Stable => true,
            Phase::Building => false,
        }
    }
}

/// How a frame's loop ended: the value the last pass left, the number of
/// passes, and whether the frame settled within the allowed passes.
pub struct Outcome<X> {
    pub value: X,
    pub passes: usize,
    pub stable: bool,
}

/// Runs `pass` from `start` until a pass consumes no action, or until
/// `max_passes` passes have run.
pub fn run_until_stable<X, F: Fn(X) -> (X, bool)>(pass: &F, start: X, max_passes: usize) -> (r:
    Outcome<X>)
    requires
        forall|x: X| #[trigger] pass.requires((x,)),
    ensures
        r.passes <= max_passes,
        r.stable ==> settles(*pass, start, r.passes as nat, r.value),
        !r.stable ==> r.passes == max_passes && busy_run(*pass, start, max_passes as nat, r.value),
{
    let mut conv = Convergence::new();
    let mut value = start;
    while conv.passes < max_passes
        invariant
            conv.passes <= max_passes,
            conv.phase == Phase::Building,
            busy_run(*pass, start, conv.passes as nat, value),
            forall|x: X| #[trigger] pass.requires((x,)),
        decreases max_passes - conv.passes,
    {
        let ghost before = value;
        let (next, consumed) = pass(value);
        value = next;
        conv.after_pass(consumed);
        if conv.is_stable() {
            assert(pass.ensures((before,), (value, false)));
            return Outcome { value, passes: conv.passes, stable: true };
        }
        assert(pass.ensures((before,), (value, true)));
        assert(busy_run(*pass, start, conv.passes as nat, value));
    }
    Outcome { value, passes: conv.passes, stable: false }
}

/// The behaviour of a counter capped at `cap`: below the cap a pass
/// consumes an action and counts up; at the cap it consumes none.
pub open spec fn capped_step(c: u64, cap: u64) -> (u64, bool) {
    if c < cap {
        ((c + 1) as u64, true)
    } else {
        (c, false)
    }
}

proof fn lemma_capped_busy<F: Fn(u64) -> (u64, bool)>(pass: F, cap: u64, start: u64, n: nat, end: u64)
    requires
        forall|c: u64, r: (u64, bool)| #[trigger] pass.ensures((c,), r) ==> r == capped_step(c, cap),
        start <= cap,
        busy_run(pass, start, n, end),
    ensures
        n <= cap - start,
        end == start + n,
    decreases n,
{
    if n > 0 {
        let mid = choose|mid: u64|
            busy_run(pass, start, (n - 1) as nat, mid) && #[trigger] pass.ensures((mid,), (end, true));
        lemma_capped_busy(pass, cap, start, (n - 1) as nat, mid);
    }
}

/// A counter that counts up to `cap` and then stops consuming actions
/// settles after exactly one pass per step it takes before the cap, plus
/// the pass that finds it capped; the loop cannot still be busy after more
/// passes than there are steps.
pub proof fn lemma_capped_counter_settles<F: Fn(u64) -> (u64, bool)>(
    pass: F,
    cap: u64,
    start: u64,
    n: nat,
    end: u64,
)
    requires
        forall|c: u64, r: (u64, bool)| #[trigger] pass.ensures((c,), r) ==> r == capped_step(c, cap),
        start <= cap,
    ensures
        busy_run(pass, start, n, end) ==> n <= cap - start && end == start + n,
        settles(pass, start, n, end) ==> n == cap - start + 1 && end == cap,
{
    if busy_run(pass, start, n, end) {
        lemma_capped_busy(pass, cap, start, n, end);
    }
    if settles(pass, start, n, end) {
        let mid = choose|mid: u64|
            busy_run(pass, start, (n - 1) as nat, mid) && #[trigger] pass.ensures((mid,), (end, false));
        lemma_capped_busy(pass, cap, start, (n - 1) as nat, mid);
    }
}

/// Run on such a counter with room for more passes than it has steps,
/// `run_until_stable` settles, after exactly one pass per step plus the
/// pass that finds the counter capped, with the counter at its cap.
pub proof fn lemma_capped_counter_outcome<F: Fn(u64) -> (u64, bool)>(
    pass: F,
    cap: u64,
    start: u64,
    max_passes: usize,
    out: Outcome<u64>,
)
    requires
        forall|c: u64, r: (u64, bool)| #[trigger] pass.ensures((c,), r) ==> r == capped_step(c, cap),
        start <= cap,
        max_passes > cap - start,
        out.passes <= max_passes,
        out.stable ==> settles(pass, start, out.passes as nat, out.value),
        !out.stable ==> out.passes == max_passes && busy_run(pass, start, max_passes as nat, out.value),
    ensures
        out.stable,
        out.passes == cap - start + 1,
        out.value == cap,
{
    lemma_capped_counter_settles(pass, cap, start, out.passes as nat, out.value);
    lemma_capped_counter_settles(pass, cap, start, max_passes as nat, out.value);
}

} // verus!
