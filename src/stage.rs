use vstd::prelude::*;

use crate::tick::NetworkTick;

verus! {

/// How far back, in ticks, a rewind may reach.
pub const MAX_REWIND: u64 = 31;

/// Fixed-step settings and state: the step length, the time not yet simulated, and the bias
/// the time-dilation controller puts on the step. Durations are in nanoseconds.
#[derive(Debug, Clone, Copy, PartialEq, Eq, Structural)]
pub struct NetworkSimulationInfo {
    pub step: u64,
    pub accumulator: u64,
    pub accel: bool,
    pub accel_step: u64,
}

impl NetworkSimulationInfo {
    /// Step length with the dilation bias applied.
    pub open spec fn timestep_spec(self) -> int {
        if self.accel {
            if self.step + self.accel_step > u64::MAX {
                u64::MAX as int
            } else {
                self.step + self.accel_step
            }
        } else {
            if self.step < self.accel_step {
                0
            } else {
                self.step - self.accel_step
            }
        }
    }

    pub fn new(timestep: u64) -> (r: NetworkSimulationInfo)
        ensures
            r.step == timestep,
            r.accumulator == 0,
            r.accel,
            r.accel_step == 0,
            r.timestep_spec() == timestep,
    {
        NetworkSimulationInfo { step: timestep, accumulator: 0, accel: true, accel_step: 0 }
    }

    /// The step length without bias.
    pub fn static_timestep(&self) -> (r: u64)
        ensures
            r == self.step,
    {
        self.step
    }

    /// Time accumulated and not simulated yet.
    pub fn remaining(&self) -> (r: u64)
        ensures
            r == self.accumulator,
    {
        self.accumulator
    }

    /// Runs faster: the step grows by `percent` percent of its length (capped at `u64::MAX`).
    pub fn accel(&mut self, percent: u64)
        ensures
            final(self).accel,
            final(self).accel_step == fraction_spec(old(self).step, percent),
            final(self).step == old(self).step,
            final(self).accumulator == old(self).accumulator,
    {
        self.accel = true;
        self.accel_step = fraction_of(self.step, percent);
    }

    /// Runs slower: the step shrinks by `percent` percent of its length (to no less than zero).
    pub fn decel(&mut self, percent: u64)
        ensures
            !final(self).accel,
            final(self).accel_step == fraction_spec(old(self).step, percent),
            final(self).step == old(self).step,
            final(self).accumulator == old(self).accumulator,
    {
        self.accel = false;
        self.accel_step = fraction_of(self.step, percent);
    }

    /// The step length with the dilation bias applied, saturating at the bounds of `u64`.
    pub fn timestep(&self) -> (r: u64)
        ensures
            r == self.timestep_spec(),
    {
        if self.accel {
            self.step.saturating_add(self.accel_step)
        } else {
            self.step.saturating_sub(self.accel_step)
        }
    }
}

/// `percent` percent of `n`, rounded down and capped at `u64::MAX`.
pub open spec fn fraction_spec(n: u64, percent: u64) -> int {
    if n * percent / 100 > u64::MAX {
        u64::MAX as int
    } else {
        n * percent / 100
    }
}

fn fraction_of(n: u64, percent: u64) -> (r: u64)
    ensures
        r == fraction_spec(n, percent),
{
    proof {
        assert((n as int) * (percent as int) <= (u64::MAX as int) * (u64::MAX as int)) by (nonlinear_arith)
            requires
                n <= u64::MAX,
                percent <= u64::MAX,
        ;
        assert((u64::MAX as int) * (u64::MAX as int) <= u128::MAX);
    }
    let wide: u128 = (n as u128) * (percent as u128) / 100;
    if wide > u64::MAX as u128 {
        u64::MAX
    } else {
        wide as u64
    }
}

/// Number of steps a frame runs when `acc` nanoseconds wait, `ts` per step.
pub open spec fn frame_steps(acc: int, ts: int) -> int {
    acc / ts
}

/// Sum of a sequence of frame lengths.
pub open spec fn total_time(deltas: Seq<u64>) -> int
    decreases deltas.len(),
{
    if deltas.len() == 0 {
        0
    } else {
        total_time(deltas.drop_last()) + deltas.last()
    }
}

/// Steps run over frames of lengths `deltas`, from accumulator `acc`, at `ts` per step.
pub open spec fn steps_over(acc: int, deltas: Seq<u64>, ts: int) -> int
    decreases deltas.len(),
{
    if deltas.len() == 0 {
        0
    } else {
        steps_over(acc, deltas.drop_last(), ts) + frame_steps(
            rest_over(acc, deltas.drop_last(), ts) + deltas.last(),
            ts,
        )
    }
}

/// Accumulator left over after frames of lengths `deltas`.
pub open spec fn rest_over(acc: int, deltas: Seq<u64>, ts: int) -> int
    decreases deltas.len(),
{
    if deltas.len() == 0 {
        acc
    } else {
        (rest_over(acc, deltas.drop_last(), ts) + deltas.last()) % ts
    }
}

/// However the time is cut into frames, the steps run are the whole steps in the time
/// accumulated: frames that add up to exactly `n` steps from an empty accumulator run
/// exactly `n` steps.
pub proof fn lemma_steps_independent_of_frames(acc: int, deltas: Seq<u64>, ts: int)
    requires
        ts > 0,
        0 <= acc < ts,
    ensures
        steps_over(acc, deltas, ts) == (acc + total_time(deltas)) / ts,
        rest_over(acc, deltas, ts) == (acc + total_time(deltas)) % ts,
    decreases deltas.len(),
{
    if deltas.len() == 0 {
        assert(acc / ts == 0) by (nonlinear_arith)
            requires
                0 <= acc < ts,
        ;
        vstd::arithmetic::div_mod::lemma_small_mod(acc as nat, ts as nat);
    } else {
        let init = deltas.drop_last();
        lemma_steps_independent_of_frames(acc, init, ts);
        let a = acc + total_time(init);
        let d = deltas.last() as int;
        assert(a >= 0) by {
            lemma_total_time_nonneg(init);
        }
        vstd::arithmetic::div_mod::lemma_fundamental_div_mod(a, ts);
        let q = a / ts;
        let r = a % ts;
        assert(a + d == (r + d) + q * ts) by (nonlinear_arith)
            requires
                a == ts * q + r,
        ;
        vstd::arithmetic::div_mod::lemma_hoist_over_denominator(r + d, q, ts as nat);
        vstd::arithmetic::div_mod::lemma_mod_multiples_vanish(q, r + d, ts);
        assert((r + d + q * ts) % ts == (r + d) % ts) by {
            assert(q * ts == ts * q) by (nonlinear_arith);
        }
        assert(total_time(deltas) == total_time(init) + d);
        assert(steps_over(acc, deltas, ts) == q + (r + d) / ts);
        assert(rest_over(acc, deltas, ts) == (r + d) % ts);
        assert((r + d) / ts + q == (a + d) / ts);
    }
}

proof fn lemma_total_time_prefix(deltas: Seq<u64>, i: int)
    requires
        0 <= i <= deltas.len(),
    ensures
        total_time(deltas.subrange(0, i)) <= total_time(deltas),
    decreases deltas.len(),
{
    if i == deltas.len() {
        assert(deltas.subrange(0, i) =~= deltas);
    } else {
        assert(deltas.drop_last().subrange(0, i) =~= deltas.subrange(0, i));
        lemma_total_time_prefix(deltas.drop_last(), i);
    }
}

proof fn lemma_total_time_nonneg(deltas: Seq<u64>)
    ensures
        total_time(deltas) >= 0,
    decreases deltas.len(),
{
    if deltas.len() > 0 {
        lemma_total_time_nonneg(deltas.drop_last());
    }
}

/// The state after simulating ticks `from + 1 ..= to` one by one.
pub open spec fn run_sim<S>(sim: spec_fn(S, u64) -> S, s: S, from: u64, to: u64) -> S
    decreases to - from,
{
    if to <= from {
        s
    } else {
        sim(run_sim(sim, s, from, (to - 1) as u64), to)
    }
}

/// The state after simulating each tick of `ticks` in turn.
pub open spec fn replay<S>(sim: spec_fn(S, u64) -> S, s: S, ticks: Seq<NetworkTick>) -> S
    decreases ticks.len(),
{
    if ticks.len() == 0 {
        s
    } else {
        sim(replay(sim, s, ticks.drop_last()), ticks.last().0)
    }
}

/// Rewind and resimulation give the straight result: with a deterministic `sim`, restoring
/// the state that straight simulation had at `target` and replaying the ticks that
/// `resim_ticks(target, current)` lists ends in the state that simulating straight from
/// `start` to `current` reaches.
pub proof fn lemma_rewind_replay<S>(
    sim: spec_fn(S, u64) -> S,
    s: S,
    start: u64,
    target: u64,
    current: u64,
    ticks: Seq<NetworkTick>,
)
    requires
        start <= target <= current,
        ticks.len() == current - target,
        forall|i: int| 0 <= i < ticks.len() ==> #[trigger] ticks[i].0 == target + 1 + i,
    ensures
        replay(sim, run_sim(sim, s, start, target), ticks) == run_sim(sim, s, start, current),
    decreases ticks.len(),
{
    if ticks.len() == 0 {
    } else {
        let init = ticks.drop_last();
        assert forall|i: int| 0 <= i < init.len() implies #[trigger] init[i].0 == target + 1 + i by {
            assert(init[i] == ticks[i]);
        }
        lemma_rewind_replay(sim, s, start, target, (current - 1) as u64, init);
        assert(ticks.last().0 == current);
    }
}

/// The tick a rewind to `target` really goes back to when the clock reads `current`: no
/// rewind unless `target` is in the past, and never further back than `MAX_REWIND` ticks.
pub open spec fn rewind_target(current: u64, target: u64) -> Option<u64> {
    if target >= current {
        None
    } else if current - target > MAX_REWIND {
        Some((current - MAX_REWIND) as u64)
    } else {
        Some(target)
    }
}

/// Drives fixed steps from wall-clock time and plans rewinds.
pub struct NetworkSimulationStage {
    pub info: NetworkSimulationInfo,
}

impl NetworkSimulationStage {
    pub fn new(timestep: u64) -> (r: NetworkSimulationStage)
        ensures
            r.info == NetworkSimulationInfo::new_spec(timestep),
    {
        NetworkSimulationStage { info: NetworkSimulationInfo::new(timestep) }
    }

    /// Starts a frame: adds `delta` (none when the host has no clock this frame, which skips
    /// the frame) to the accumulator and takes out the whole steps; returns how many steps
    /// the frame runs.
    pub fn begin_frame(&mut self, delta: Option<u64>) -> (steps: u64)
        requires
            old(self).info.timestep_spec() > 0,
        ensures
            final(self).info.step == old(self).info.step,
            final(self).info.accel == old(self).info.accel,
            final(self).info.accel_step == old(self).info.accel_step,
            delta is None ==> steps == 0 && final(self).info == old(self).info,
            delta is Some ==> ({
                let acc = if old(self).info.accumulator + delta.unwrap() > u64::MAX {
                    u64::MAX as int
                } else {
                    old(self).info.accumulator + delta.unwrap()
                };
                &&& steps == frame_steps(acc, old(self).info.timestep_spec())
                &&& final(self).info.accumulator == acc % old(self).info.timestep_spec()
            }),
    {
        match delta {
            None => 0,
            Some(d) => {
                let ts = self.info.timestep();
                let acc = self.info.accumulator.saturating_add(d);
                self.info.accumulator = acc % ts;
                acc / ts
            },
        }
    }

    /// Runs frames of lengths `deltas` one after another, advancing `tick` once per step;
    /// returns how many steps ran. However the time is cut into frames, that is the number of
    /// whole steps in the accumulated time.
    pub fn run_frames(&mut self, tick: &mut Option<NetworkTick>, deltas: &Vec<u64>) -> (steps: u64)
        requires
            old(self).info.timestep_spec() > 0,
            old(self).info.accumulator < old(self).info.timestep_spec(),
            old(self).info.accumulator + total_time(deltas@) <= u64::MAX,
            (*old(tick)) is Some ==> (*old(tick)).unwrap().0 + old(self).info.accumulator + total_time(deltas@) <= u64::MAX,
        ensures
            steps == (old(self).info.accumulator + total_time(deltas@)) / old(self).info.timestep_spec(),
            steps == steps_over(old(self).info.accumulator as int, deltas@, old(self).info.timestep_spec()),
            final(self).info.accumulator == (old(self).info.accumulator + total_time(deltas@))
                % old(self).info.timestep_spec(),
            (*old(tick)) is Some ==> *final(tick) == Some(NetworkTick(((*old(tick)).unwrap().0 + steps) as u64)),
            (*old(tick)) is None ==> *final(tick) is None,
    {
        let ghost ts = self.info.timestep_spec();
        let ghost acc0 = self.info.accumulator as int;
        let ghost t0 = *tick;
        let ghost ds = deltas@;
        proof {
            lemma_steps_independent_of_frames(acc0, ds, ts);
            lemma_total_time_nonneg(ds);
        }
        let mut total: u64 = 0;
        let mut i: usize = 0;
        while i < deltas.len()
            invariant
                i <= ds.len(),
                ds == deltas@,
                ts > 0,
                0 <= acc0 < ts,
                acc0 + total_time(ds) <= u64::MAX,
                t0 is Some ==> t0.unwrap().0 + acc0 + total_time(ds) <= u64::MAX,
                self.info.timestep_spec() == ts,
                self.info.accumulator == rest_over(acc0, ds.subrange(0, i as int), ts),
                total == steps_over(acc0, ds.subrange(0, i as int), ts),
                t0 is Some ==> *tick == Some(NetworkTick((t0.unwrap().0 + total) as u64)),
                t0 is None ==> *tick is None,
            decreases ds.len() - i,
        {
            let ghost pre = ds.subrange(0, i as int);
            let ghost pre1 = ds.subrange(0, i + 1);
            proof {
                assert(pre1.drop_last() =~= pre);
                assert(pre1.last() == ds[i as int]);
                lemma_steps_independent_of_frames(acc0, pre, ts);
                lemma_steps_independent_of_frames(acc0, pre1, ts);
                lemma_total_time_prefix(ds, i + 1);
                lemma_total_time_nonneg(pre);
                assert(total_time(pre1) == total_time(pre) + ds[i as int]);
                let a = acc0 + total_time(pre);
                assert(a % ts <= a) by {
                    vstd::arithmetic::div_mod::lemma_mod_decreases(a as nat, ts as nat);
                }
                let b = acc0 + total_time(pre1);
                assert(b / ts <= b) by {
                    vstd::arithmetic::div_mod::lemma_div_is_ordered_by_denominator(b, 1, ts);
                }
            }
            let n = self.begin_frame(Some(deltas[i]));
            let mut j: u64 = 0;
            while j < n
                invariant
                    j <= n,
                    t0 is Some ==> t0.unwrap().0 + total + n <= u64::MAX,
                    t0 is Some ==> *tick == Some(NetworkTick((t0.unwrap().0 + total + j) as u64)),
                    t0 is None ==> *tick is None,
                decreases n - j,
            {
                Self::step_tick(tick);
                j = j + 1;
            }
            total = total + n;
            i = i + 1;
        }
        proof {
            assert(ds.subrange(0, i as int) =~= ds);
        }
        total
    }

    /// Advances `tick` by one step when there is one: the simulation runs only then.
    pub fn step_tick(tick: &mut Option<NetworkTick>) -> (run_sim: bool)
        ensures
            run_sim == (old(tick).is_some() && (*old(tick)).unwrap().0 < u64::MAX),
            run_sim ==> *final(tick) == Some(NetworkTick(((*old(tick)).unwrap().0 + 1) as u64)),
            !run_sim ==> *final(tick) == *old(tick),
    {
        match tick {
            Some(t) => {
                if t.0 < u64::MAX {
                    t.increment_tick();
                    true
                } else {
                    false
                }
            },
            None => false,
        }
    }

    /// Where a rewind to `target` goes when the clock reads `current`.
    pub fn plan_rewind(current: NetworkTick, target: NetworkTick) -> (r: Option<NetworkTick>)
        ensures
            match rewind_target(current.0, target.0) {
                Some(t) => r == Some(NetworkTick(t)),
                None => r is None,
            },
    {
        if target.0 >= current.0 {
            None
        } else if current.0 - target.0 > MAX_REWIND {
            Some(NetworkTick::new(current.0 - MAX_REWIND))
        } else {
            Some(target)
        }
    }

    /// Where a planned rewind really goes given the oldest snapshot kept: no further back
    /// than that snapshot, and no rewind at all without snapshots or when nothing is left
    /// to replay.
    pub fn clamp_to_history(current: NetworkTick, planned: Option<NetworkTick>, oldest: Option<NetworkTick>) -> (r:
        Option<NetworkTick>)
        ensures
            (planned is None || oldest is None) ==> r is None,
            planned is Some && oldest is Some ==> ({
                let s = if planned.unwrap().0 >= oldest.unwrap().0 { planned.unwrap() } else { oldest.unwrap() };
                &&& s.0 < current.0 ==> r == Some(s)
                &&& s.0 >= current.0 ==> r is None
            }),
    {
        match (planned, oldest) {
            (Some(p), Some(o)) => {
                let s = if p.0 >= o.0 { p } else { o };
                if s.0 < current.0 {
                    Some(s)
                } else {
                    None
                }
            },
            _ => None,
        }
    }

    /// The ticks to simulate again after rewinding to `target`: `target + 1 ..= current`.
    pub fn resim_ticks(target: NetworkTick, current: NetworkTick) -> (r: Vec<NetworkTick>)
        ensures
            target.0 <= current.0 ==> r@.len() == current.0 - target.0,
            target.0 > current.0 ==> r@.len() == 0,
            forall|i: int| 0 <= i < r@.len() ==> #[trigger] r@[i].0 == target.0 + 1 + i,
    {
        let mut r: Vec<NetworkTick> = Vec::new();
        let mut t: u64 = target.0;
        while t < current.0
            invariant
                target.0 <= t,
                t <= current.0 || t == target.0,
                r@.len() == t - target.0,
                forall|i: int| 0 <= i < r@.len() ==> #[trigger] r@[i].0 == target.0 + 1 + i,
            decreases current.0 - t,
        {
            t = t + 1;
            r.push(NetworkTick::new(t));
        }
        r
    }
}

impl NetworkSimulationInfo {
    /// Fresh settings for steps of `timestep` nanoseconds.
    pub open spec fn new_spec(timestep: u64) -> NetworkSimulationInfo {
        NetworkSimulationInfo { step: timestep, accumulator: 0, accel: true, accel_step: 0 }
    }
}

} // verus!
