use vstd::prelude::*;

verus! {

broadcast use vstd::seq_lib::group_seq_properties;

/// Something ordered by a priority (lower runs first).
pub trait HasPriority {
    spec fn spec_priority(&self) -> u32;

    fn priority(&self) -> (p: u32)
        ensures
            p == self.spec_priority(),
    ;
}

/// The function a system runs on a world of type `W`; `false` means it reported an error.
pub trait SystemFn<W> {
    /// Whether one call may turn the world `before` into `after` and report `r`. Unless an
    /// implementation says more, any outcome is possible.
    open spec fn ran(&self, before: W, after: W, r: bool) -> bool {
        true
    }

    fn call(&self, world: &mut W) -> (r: bool)
        ensures
            self.ran(*old(world), *final(world), r),
    ;
}

/// A system the scheduler can run on a world of type `W`.
pub trait ScheduledSystem<W> {
    /// Whether one run may turn the world `before` into `after` and report `r`.
    spec fn runs(&self, before: W, after: W, r: bool) -> bool;

    fn name(&self) -> &'static str;

    fn run(&self, world: &mut W) -> (r: bool)
        ensures
            self.runs(*old(world), *final(world), r),
    ;
}

/// A system that runs every frame.
pub struct UpdateSystem<F> {
    pub name: &'static str,
    pub func: F,
    pub priority: u32,
}

/// A system that runs at the end of every frame.
pub struct LateUpdateSystem<F> {
    pub name: &'static str,
    pub func: F,
    pub priority: u32,
}

/// A system that runs once at startup.
pub struct StartSystem<F> {
    pub name: &'static str,
    pub func: F,
    pub priority: u32,
}

/// A system that runs before each frame's render pass.
pub struct PreRenderSystem<F> {
    pub name: &'static str,
    pub func: F,
    pub priority: u32,
}

/// A system that runs at a fixed timestep.
pub struct FixedUpdateSystem<F> {
    pub name: &'static str,
    pub func: F,
    pub priority: u32,
}

impl<F> HasPriority for UpdateSystem<F> {
    open spec fn spec_priority(&self) -> u32 {
        self.priority
    }

    fn priority(&self) -> (p: u32) {
        self.priority
    }
}

impl<F> HasPriority for LateUpdateSystem<F> {
    open spec fn spec_priority(&self) -> u32 {
        self.priority
    }

    fn priority(&self) -> (p: u32) {
        self.priority
    }
}

impl<F> HasPriority for StartSystem<F> {
    open spec fn spec_priority(&self) -> u32 {
        self.priority
    }

    fn priority(&self) -> (p: u32) {
        self.priority
    }
}

impl<F> HasPriority for PreRenderSystem<F> {
    open spec fn spec_priority(&self) -> u32 {
        self.priority
    }

    fn priority(&self) -> (p: u32) {
        self.priority
    }
}

impl<F> HasPriority for FixedUpdateSystem<F> {
    open spec fn spec_priority(&self) -> u32 {
        self.priority
    }

    fn priority(&self) -> (p: u32) {
        self.priority
    }
}

impl<W, F: SystemFn<W>> ScheduledSystem<W> for UpdateSystem<F> {
    /// One run is one call of the system's function.
    open spec fn runs(&self, before: W, after: W, r: bool) -> bool {
        self.func.ran(before, after, r)
    }

    fn name(&self) -> (r: &'static str)
        ensures
            r == self.name,
    {
        self.name
    }

    fn run(&self, world: &mut W) -> bool {
        self.func.call(world)
    }
}

impl<W, F: SystemFn<W>> ScheduledSystem<W> for LateUpdateSystem<F> {
    /// One run is one call of the system's function.
    open spec fn runs(&self, before: W, after: W, r: bool) -> bool {
        self.func.ran(before, after, r)
    }

    fn name(&self) -> (r: &'static str)
        ensures
            r == self.name,
    {
        self.name
    }

    fn run(&self, world: &mut W) -> bool {
        self.func.call(world)
    }
}

impl<W, F: SystemFn<W>> ScheduledSystem<W> for StartSystem<F> {
    /// One run is one call of the system's function.
    open spec fn runs(&self, before: W, after: W, r: bool) -> bool {
        self.func.ran(before, after, r)
    }

    fn name(&self) -> (r: &'static str)
        ensures
            r == self.name,
    {
        self.name
    }

    fn run(&self, world: &mut W) -> bool {
        self.func.call(world)
    }
}

impl<F> FixedUpdateSystem<F> {
    pub fn name(&self) -> (r: &'static str)
        ensures
            r == self.name,
    {
        self.name
    }
}

/// Whether an item has priority `p`.
pub open spec fn with_priority<S: HasPriority>(p: u32) -> spec_fn(S) -> bool {
    |s: S| s.spec_priority() == p
}

/// Lower priorities come first.
pub open spec fn priority_sorted<S: HasPriority>(s: Seq<S>) -> bool {
    forall|i: int, j: int|
        0 <= i < j < s.len() ==> (#[trigger] s[i]).spec_priority() <= (#[trigger] s[j]).spec_priority()
}

/// `r` holds the items of `s` sorted by priority, items of equal priority in their order in
/// `s` (a stable sort).
pub open spec fn stably_sorted<S: HasPriority>(s: Seq<S>, r: Seq<S>) -> bool {
    &&& r.len() == s.len()
    &&& priority_sorted(r)
    &&& forall|p: u32| #[trigger] r.filter(with_priority(p)) == s.filter(with_priority(p))
}

/// The items of `systems` sorted by priority; items of equal priority keep their order.
pub fn sort_by_priority<S: HasPriority>(systems: Vec<S>) -> (r: Vec<S>)
    ensures
        stably_sorted(systems@, r@),
{
    let ghost orig = systems@;
    let n = systems.len();
    let mut rest = systems;
    let mut out: Vec<S> = Vec::new();
    let mut i: usize = 0;
    while rest.len() > 0
        invariant
            rest@ == orig.skip(i as int),
            n == orig.len(),
            i <= orig.len(),
            out@.len() == i,
            priority_sorted(out@),
            forall|p: u32| #[trigger] out@.filter(with_priority(p)) == orig.take(i as int).filter(
                with_priority(p),
            ),
        decreases rest@.len(),
    {
        let x = rest.remove(0);
        let px = x.priority();
        let mut pos: usize = 0;
        while pos < out.len() && out[pos].priority() <= px
            invariant
                pos <= out@.len(),
                forall|k: int| 0 <= k < pos ==> (#[trigger] out@[k]).spec_priority() <= px,
            decreases out@.len() - pos,
        {
            pos = pos + 1;
        }
        let ghost before = out@;
        out.insert(pos, x);
        proof {
            assert(orig[i as int] == x);
            assert(orig.take(i + 1) =~= orig.take(i as int).push(x));
            let lo = before.subrange(0, pos as int);
            let hi = before.subrange(pos as int, before.len() as int);
            assert(before =~= lo + hi);
            assert(out@ =~= lo.push(x) + hi);
            assert forall|k: int| 0 <= k < hi.len() implies (#[trigger] hi[k]).spec_priority() > px by {
                assert(before[pos as int].spec_priority() > px);
                if k > 0 {
                    assert(before[pos as int].spec_priority() <= before[pos + k].spec_priority());
                }
            }
            assert forall|a: int, b: int|
                0 <= a < b < out@.len() implies (#[trigger] out@[a]).spec_priority() <= (
                #[trigger] out@[b]).spec_priority() by {
                if a < pos && b < pos {
                    assert(out@[a] == before[a] && out@[b] == before[b]);
                } else if a < pos && b == pos {
                    assert(out@[a] == before[a]);
                } else if a < pos {
                    assert(out@[a] == before[a] && out@[b] == before[b - 1]);
                } else if a == pos {
                    assert(out@[b] == hi[b - pos - 1]);
                } else {
                    assert(out@[a] == before[a - 1] && out@[b] == before[b - 1]);
                }
            }
            assert forall|p: u32| #[trigger] out@.filter(with_priority(p)) == orig.take(i + 1).filter(
                with_priority(p),
            ) by {
                let f = with_priority::<S>(p);
                Seq::filter_distributes_over_add(lo.push(x), hi, f);
                Seq::filter_distributes_over_add(lo, hi, f);
                lo.lemma_filter_push(x, f);
                orig.take(i as int).lemma_filter_push(x, f);
                if p == px {
                    hi.lemma_all_neg_filter_empty(f);
                    assert(hi.filter(f) =~= Seq::<S>::empty());
                    assert(lo.filter(f).push(x) + hi.filter(f) =~= (lo.filter(f) + hi.filter(f)).push(x));
                } else {
                }
            }
        }
        i = i + 1;
    }
    proof {
        assert(orig.take(i as int) =~= orig);
    }
    out
}

/// Whether running `s` once may turn `before` into `after`, whatever it reports.
pub open spec fn may_run<W, S: ScheduledSystem<W>>(s: S, before: W, after: W) -> bool {
    s.runs(before, after, true) || s.runs(before, after, false)
}

/// `ws` is a run of `systems` in order: `ws[k + 1]` is what running `systems[k]` may make of
/// `ws[k]`.
pub open spec fn ran_in_order<W, S: ScheduledSystem<W>>(systems: Seq<S>, ws: Seq<W>) -> bool {
    &&& ws.len() == systems.len() + 1
    &&& forall|k: int| 0 <= k < systems.len() ==> #[trigger] may_run(systems[k], ws[k], ws[k + 1])
}

/// Runs each system once, in order, on `world`; a system that reports an error does not
/// stop the others.
pub fn run_system<W, S: ScheduledSystem<W>>(world: &mut W, systems: &[S])
    ensures
        exists|ws: Seq<W>|
            #![trigger ran_in_order(systems@, ws)]
            ran_in_order(systems@, ws) && ws[0] == *old(world) && ws.last() == *final(world),
{
    let ghost w0 = *world;
    let ghost mut ws: Seq<W> = seq![*world];
    let mut i: usize = 0;
    while i < systems.len()
        invariant
            i <= systems@.len(),
            ws.len() == i + 1,
            ws[0] == w0,
            ws.last() == *world,
            forall|k: int| 0 <= k < i ==> #[trigger] may_run(systems@[k], ws[k], ws[k + 1]),
        decreases systems@.len() - i,
    {
        let ghost before = *world;
        let succeeded = systems[i].run(world);
        proof {
            let prev = ws;
            ws = ws.push(*world);
            assert(may_run(systems@[i as int], before, *world));
            assert forall|k: int| 0 <= k < i + 1 implies #[trigger] may_run(systems@[k], ws[k], ws[k + 1]) by {
                if k < i {
                    assert(ws[k] == prev[k] && ws[k + 1] == prev[k + 1]);
                }
            }
        }
        i = i + 1;
    }
    assert(ran_in_order(systems@, ws));
}

/// Whether one call of `f` with timestep length `delta` may turn `before` into `after`,
/// whatever it reports.
pub open spec fn may_step<W, F: FixedSystemFn<W, T>, T>(f: F, before: W, after: W, delta: T) -> bool {
    f.ran(before, after, delta, true) || f.ran(before, after, delta, false)
}

/// `ws` is a run of the fixed-step `systems` in order with timestep length `delta`.
pub open spec fn fixed_ran_in_order<W, F: FixedSystemFn<W, T>, T>(
    systems: Seq<FixedUpdateSystem<F>>,
    delta: T,
    ws: Seq<W>,
) -> bool {
    &&& ws.len() == systems.len() + 1
    &&& forall|k: int|
        0 <= k < systems.len() ==> #[trigger] may_step(systems[k].func, ws[k], ws[k + 1], delta)
}

/// Runs each fixed-step system once, in order, with the fixed timestep's length.
pub fn run_fixed_update<W, F, T: Copy>(world: &mut W, systems: &[FixedUpdateSystem<F>], delta: T)
    where F: FixedSystemFn<W, T>,
    ensures
        exists|ws: Seq<W>|
            #![trigger fixed_ran_in_order(systems@, delta, ws)]
            fixed_ran_in_order(systems@, delta, ws) && ws[0] == *old(world) && ws.last() == *final(world),
{
    let ghost w0 = *world;
    let ghost mut ws: Seq<W> = seq![*world];
    let mut i: usize = 0;
    while i < systems.len()
        invariant
            i <= systems@.len(),
            ws.len() == i + 1,
            ws[0] == w0,
            ws.last() == *world,
            forall|k: int| 0 <= k < i ==> #[trigger] may_step(systems@[k].func, ws[k], ws[k + 1], delta),
        decreases systems@.len() - i,
    {
        let ghost before = *world;
        let succeeded = systems[i].func.call(world, delta);
        proof {
            let prev = ws;
            ws = ws.push(*world);
            assert(may_step(systems@[i as int].func, before, *world, delta));
            assert forall|k: int| 0 <= k < i + 1 implies #[trigger] may_step(systems@[k].func, ws[k], ws[k + 1], delta) by {
                if k < i {
                    assert(ws[k] == prev[k] && ws[k + 1] == prev[k + 1]);
                }
            }
        }
        i = i + 1;
    }
    assert(fixed_ran_in_order(systems@, delta, ws));
}

/// The function a fixed-step system runs, given the fixed timestep's length of type `T`.
pub trait FixedSystemFn<W, T> {
    /// Whether one call with timestep length `delta` may turn the world `before` into `after`
    /// and report `r`. Unless an implementation says more, any outcome is possible.
    open spec fn ran(&self, before: W, after: W, delta: T, r: bool) -> bool {
        true
    }

    fn call(&self, world: &mut W, delta: T) -> (r: bool)
        ensures
            self.ran(*old(world), *final(world), delta, r),
    ;
}

/// The most fixed steps one frame runs; past it the remaining time is dropped.
pub const MAX_FIXED_STEPS: u32 = 8;

/// The fixed-timestep clock: the frame time not yet consumed by fixed steps.
pub struct Schedule {
    fixed_timestep: u64,
    accumulator: u64,
}

impl Schedule {
    /// The length of a fixed step, in nanoseconds.
    pub closed spec fn timestep(&self) -> u64 {
        self.fixed_timestep
    }

    /// The time accumulated and not yet consumed, in nanoseconds.
    pub closed spec fn accumulated(&self) -> u64 {
        self.accumulator
    }

    /// A clock with fixed steps of `fixed_timestep` nanoseconds and nothing accumulated.
    pub fn new(fixed_timestep: u64) -> (s: Self)
        ensures
            s.timestep() == fixed_timestep,
            s.accumulated() == 0,
    {
        Schedule { fixed_timestep, accumulator: 0 }
    }

    /// The time accumulated and not yet consumed, in nanoseconds.
    pub fn accumulator(&self) -> (r: u64)
        ensures
            r == self.accumulated(),
    {
        self.accumulator
    }

    /// Adds one frame's `delta` nanoseconds and returns how many fixed steps to run now:
    /// one per whole timestep accumulated, at most [`MAX_FIXED_STEPS`]; when that cap is
    /// reached the rest of the accumulated time is dropped.
    pub fn tick(&mut self, delta: u64) -> (steps: u32)
        requires
            old(self).accumulated() + delta <= u64::MAX,
        ensures
            final(self).timestep() == old(self).timestep(),
            steps <= MAX_FIXED_STEPS,
            steps < MAX_FIXED_STEPS ==> {
                &&& steps * old(self).timestep() + final(self).accumulated() == old(
                    self,
                ).accumulated() + delta
                &&& final(self).accumulated() < old(self).timestep()
            },
            steps == MAX_FIXED_STEPS ==> {
                &&& final(self).accumulated() == 0
                &&& old(self).accumulated() + delta >= MAX_FIXED_STEPS * old(self).timestep()
            },
    {
        self.accumulator = self.accumulator + delta;
        let ghost total = self.accumulator as int;
        let ts = self.fixed_timestep;
        let mut steps: u32 = 0;
        let ghost mut consumed: int = 0;
        while self.accumulator >= ts
            invariant_except_break
                steps < MAX_FIXED_STEPS,
                consumed == steps * ts,
                consumed + self.accumulator == total,
                self.fixed_timestep == ts,
            ensures
                self.fixed_timestep == ts,
                steps <= MAX_FIXED_STEPS,
                steps < MAX_FIXED_STEPS ==> consumed == steps * ts && consumed + self.accumulator
                    == total && self.accumulator < ts,
                steps == MAX_FIXED_STEPS ==> self.accumulator == 0 && total >= MAX_FIXED_STEPS
                    * ts,
            decreases MAX_FIXED_STEPS - steps,
        {
            self.accumulator = self.accumulator - ts;
            proof {
                assert(consumed + ts == (steps + 1) * ts) by (nonlinear_arith)
                    requires
                        consumed == steps * ts,
                ;
                consumed = consumed + ts;
            }
            steps = steps + 1;
            if steps >= MAX_FIXED_STEPS {
                self.accumulator = 0;
                break;
            }
        }
        steps
    }
}

/// Whether one call of `f` may turn `before` into `after`, whatever it reports.
pub open spec fn may_call<W, P: SystemFn<W>>(f: P, before: W, after: W) -> bool {
    f.ran(before, after, true) || f.ran(before, after, false)
}

/// Whether one round of the fixed-step systems may turn `before` into `after`.
pub open spec fn fixed_round<W, F: FixedSystemFn<W, T>, T>(
    systems: Seq<FixedUpdateSystem<F>>,
    delta: T,
    before: W,
    after: W,
) -> bool {
    exists|ws: Seq<W>| #[trigger] fixed_ran_in_order(systems, delta, ws) && ws[0] == before && ws.last() == after
}

/// `rounds` are the worlds between consecutive rounds of the fixed-step systems.
pub open spec fn fixed_rounds<W, F: FixedSystemFn<W, T>, T>(
    systems: Seq<FixedUpdateSystem<F>>,
    delta: T,
    rounds: Seq<W>,
) -> bool {
    forall|i: int| 0 <= i < rounds.len() - 1 ==> #[trigger] fixed_round(systems, delta, rounds[i], rounds[i + 1])
}

/// `after` is what `n` rounds of the fixed-step systems may make of `before`.
pub open spec fn fixed_steps_ran<W, F: FixedSystemFn<W, T>, T>(
    systems: Seq<FixedUpdateSystem<F>>,
    delta: T,
    n: nat,
    before: W,
    after: W,
) -> bool {
    exists|rounds: Seq<W>|
        #[trigger] fixed_rounds(systems, delta, rounds) && rounds.len() == n + 1 && rounds[0] == before
            && rounds.last() == after
}

/// The late-update stage from `before`: the late systems in order, then a propagation
/// reporting `ok`.
pub open spec fn late_stage<W, Q: SystemFn<W>, S: ScheduledSystem<W>>(
    propagate: Q,
    late: Seq<S>,
    before: W,
    after: W,
    ok: bool,
) -> bool {
    exists|ws: Seq<W>|
        #[trigger] ran_in_order(late, ws) && ws[0] == before && propagate.ran(ws.last(), after, ok)
}

/// The update stage from `before`: the update systems in order, then a propagation; if that
/// fails the frame ends there, else the late-update stage follows.
pub open spec fn update_stage<W, Q: SystemFn<W>, S1: ScheduledSystem<W>, S2: ScheduledSystem<W>>(
    propagate: Q,
    update: Seq<S1>,
    late: Seq<S2>,
    before: W,
    after: W,
    ok: bool,
) -> bool {
    ||| exists|ws: Seq<W>|
        #[trigger] ran_in_order(update, ws) && ws[0] == before && propagate.ran(ws.last(), after, false)
            && !ok
    ||| exists|ws: Seq<W>, mid: W|
        #![trigger ran_in_order(update, ws), late_stage(propagate, late, mid, after, ok)]
        ran_in_order(update, ws) && ws[0] == before && propagate.ran(ws.last(), mid, true)
            && late_stage(propagate, late, mid, after, ok)
}

/// The systems stages of a frame from `before`: a propagation; if it fails the frame ends
/// there, else the update stage follows.
pub open spec fn frame_stages<W, Q: SystemFn<W>, S1: ScheduledSystem<W>, S2: ScheduledSystem<W>>(
    propagate: Q,
    update: Seq<S1>,
    late: Seq<S2>,
    before: W,
    after: W,
    ok: bool,
) -> bool {
    ||| propagate.ran(before, after, false) && !ok
    ||| exists|mid: W|
        #[trigger] update_stage(propagate, update, late, mid, after, ok) && propagate.ran(before, mid, true)
}

impl Schedule {
    /// One frame of `delta` nanoseconds: the clock gives the number of fixed steps, each of
    /// which runs the fixed-step systems in order; then `publish` hands the frame time to the
    /// world, transforms are propagated, the update systems run in order, transforms are
    /// propagated, the late-update systems run in order and transforms are propagated again.
    /// A failed propagation ends the frame; the result is the step count and whether every
    /// propagation succeeded.
    pub fn run_frame<W, F, T: Copy, P, Q, S1, S2>(
        &mut self,
        world: &mut W,
        delta: u64,
        fixed: &[FixedUpdateSystem<F>],
        fixed_delta: T,
        publish: &P,
        propagate: &Q,
        update: &[S1],
        late: &[S2],
    ) -> (r: (u32, bool))
        where
            F: FixedSystemFn<W, T>,
            P: SystemFn<W>,
            Q: SystemFn<W>,
            S1: ScheduledSystem<W>,
            S2: ScheduledSystem<W>,
        requires
            old(self).accumulated() + delta <= u64::MAX,
        ensures
            final(self).timestep() == old(self).timestep(),
            r.0 <= MAX_FIXED_STEPS,
            r.0 < MAX_FIXED_STEPS ==> {
                &&& r.0 * old(self).timestep() + final(self).accumulated() == old(
                    self,
                ).accumulated() + delta
                &&& final(self).accumulated() < old(self).timestep()
            },
            r.0 == MAX_FIXED_STEPS ==> {
                &&& final(self).accumulated() == 0
                &&& old(self).accumulated() + delta >= MAX_FIXED_STEPS * old(self).timestep()
            },
            exists|stepped: W, published: W|
                #![trigger may_call(*publish, stepped, published)]
                fixed_steps_ran(fixed@, fixed_delta, r.0 as nat, *old(world), stepped) && may_call(
                    *publish,
                    stepped,
                    published,
                ) && frame_stages(*propagate, update@, late@, published, *final(world), r.1),
    {
        let steps = self.tick(delta);
        let ghost w0 = *world;
        let ghost mut rounds: Seq<W> = seq![*world];
        let mut k: u32 = 0;
        while k < steps
            invariant
                k <= steps,
                rounds.len() == k + 1,
                rounds[0] == w0,
                rounds.last() == *world,
                fixed_rounds(fixed@, fixed_delta, rounds),
            decreases steps - k,
        {
            let ghost before = *world;
            run_fixed_update(world, fixed, fixed_delta);
            proof {
                let ws = choose|ws: Seq<W>|
                    #![trigger fixed_ran_in_order(fixed@, fixed_delta, ws)]
                    fixed_ran_in_order(fixed@, fixed_delta, ws) && ws[0] == before && ws.last() == *world;
                assert(fixed_round(fixed@, fixed_delta, before, *world));
                let prev = rounds;
                rounds = rounds.push(*world);
                assert forall|i: int| 0 <= i < rounds.len() - 1 implies #[trigger] fixed_round(
                    fixed@,
                    fixed_delta,
                    rounds[i],
                    rounds[i + 1],
                ) by {
                    if i < prev.len() - 1 {
                        assert(rounds[i] == prev[i] && rounds[i + 1] == prev[i + 1]);
                    } else {
                        assert(rounds[i] == before);
                    }
                }
            }
            k = k + 1;
        }
        let ghost stepped = *world;
        let _published = publish.call(world);
        let ghost published = *world;
        assert(may_call(*publish, stepped, published));
        assert(fixed_steps_ran(fixed@, fixed_delta, steps as nat, w0, stepped));
        let ok1 = propagate.call(world);
        if !ok1 {
            assert(frame_stages(*propagate, update@, late@, published, *world, false));
            return (steps, false);
        }
        let ghost mid1 = *world;
        run_system(world, update);
        let ghost after_update = *world;
        let ok2 = propagate.call(world);
        if !ok2 {
            proof {
                let ws = choose|ws: Seq<W>|
                    #![trigger ran_in_order(update@, ws)]
                    ran_in_order(update@, ws) && ws[0] == mid1 && ws.last() == after_update;
                assert(update_stage(*propagate, update@, late@, mid1, *world, false));
                assert(frame_stages(*propagate, update@, late@, published, *world, false));
                assert(fixed_steps_ran(fixed@, fixed_delta, steps as nat, w0, stepped) && may_call(*publish, stepped, published));
            }
            return (steps, false);
        }
        let ghost mid2 = *world;
        run_system(world, late);
        let ghost after_late = *world;
        let ok3 = propagate.call(world);
        proof {
            let ws2 = choose|ws: Seq<W>|
                #![trigger ran_in_order(late@, ws)]
                ran_in_order(late@, ws) && ws[0] == mid2 && ws.last() == after_late;
            assert(late_stage(*propagate, late@, mid2, *world, ok3));
            let ws1 = choose|ws: Seq<W>|
                #![trigger ran_in_order(update@, ws)]
                ran_in_order(update@, ws) && ws[0] == mid1 && ws.last() == after_update;
            assert(update_stage(*propagate, update@, late@, mid1, *world, ok3));
            assert(frame_stages(*propagate, update@, late@, published, *world, ok3));
            assert(fixed_steps_ran(fixed@, fixed_delta, steps as nat, w0, stepped) && may_call(*publish, stepped, published));
        }
        (steps, ok3)
    }
}

/// Filtering by a predicate that holds of `x` keeps every occurrence of `x`.
proof fn lemma_filter_keeps_count<S>(s: Seq<S>, p: spec_fn(S) -> bool, x: S)
    requires
        p(x),
    ensures
        s.filter(p).to_multiset().count(x) == s.to_multiset().count(x),
    decreases s.len(),
{
    broadcast use vstd::multiset::group_multiset_axioms;

    if s.len() > 0 {
        let s0 = s.drop_last();
        let a = s.last();
        lemma_filter_keeps_count(s0, p, x);
        assert(s =~= s0.push(a));
        s0.lemma_filter_push(a, p);
        vstd::seq_lib::to_multiset_build(s0, a);
        vstd::seq_lib::to_multiset_build(s0.filter(p), a);
    } else {
        assert(s.filter(p) =~= Seq::<S>::empty()) by {
            s.lemma_filter_len(p);
        }
    }
}

/// A stable sort by priority only reorders: every item occurs as often as before.
pub proof fn lemma_stable_sort_permutes<S: HasPriority>(s: Seq<S>, r: Seq<S>)
    requires
        stably_sorted(s, r),
    ensures
        r.to_multiset() == s.to_multiset(),
{
    assert forall|x: S| r.to_multiset().count(x) == s.to_multiset().count(x) by {
        let p = with_priority::<S>(x.spec_priority());
        lemma_filter_keeps_count(r, p, x);
        lemma_filter_keeps_count(s, p, x);
        assert(r.filter(p) == s.filter(p));
    }
    assert(r.to_multiset() =~= s.to_multiset());
}

/// Across ticks the clock never holds a whole timestep once it has run its steps, and no
/// frame time is lost while the step cap is not reached.
pub proof fn lemma_tick_conserves_time(
    before: Schedule,
    after: Schedule,
    delta: u64,
    steps: u32,
)
    requires
        after.timestep() == before.timestep(),
        steps <= MAX_FIXED_STEPS,
        steps < MAX_FIXED_STEPS ==> {
            &&& steps * before.timestep() + after.accumulated() == before.accumulated() + delta
            &&& after.accumulated() < before.timestep()
        },
        steps == MAX_FIXED_STEPS ==> {
            &&& after.accumulated() == 0
            &&& before.accumulated() + delta >= MAX_FIXED_STEPS * before.timestep()
        },
    ensures
        after.accumulated() == 0 || after.accumulated() < after.timestep(),
        steps * before.timestep() + after.accumulated() <= before.accumulated() + delta,
{
    if steps == MAX_FIXED_STEPS {
        assert(steps * before.timestep() <= before.accumulated() + delta);
    }
}

} // verus!
