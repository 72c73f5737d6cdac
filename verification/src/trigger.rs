//! When a cursor resting at an edge should trigger a switch.
//!
//! Times are milliseconds on a monotonic clock whose origin the caller
//! chooses (the app counts from its start).

use vstd::prelude::*;

use crate::desktop::{inland_distance_spec, Edge, Point};

verus! {

/// How far the cursor has to move away from the edge after a switch before
/// the next one can trigger.
pub const REARM_DISTANCE: i32 = 50;

/// What a trigger is waiting for.
#[derive(Clone, Copy, Debug)]
pub enum State {
    /// Waiting for the cursor to rest at an edge, which it has been doing
    /// since the given time.
    Armed { resting: Option<(Edge, u64)> },
    /// Fired at `edge` with the cursor at `origin`. Re-arms once the cursor
    /// has moved inland and the cooldown has run out (at `until`), so that a
    /// cursor left at the edge does not switch straight back when the devices
    /// return.
    Disarmed { edge: Edge, origin: Point, until: u64, moved_inland: bool },
}

/// Decides when a cursor resting at an edge switches the devices.
pub struct Trigger {
    dwell: u64,
    cooldown: u64,
    state: State,
}

/// A trigger's timing and state.
pub struct TriggerModel {
    /// How long the cursor has to rest at an edge, in milliseconds.
    pub dwell: u64,
    /// How long after a switch the next one may start at the earliest.
    pub cooldown: u64,
    pub state: State,
}

/// One cursor sample fed to a trigger: the time, the cursor, and the edge it
/// is at, if any.
pub struct Sample {
    pub now: u64,
    pub cursor: Point,
    pub at: Option<Edge>,
}

impl View for Trigger {
    type V = TriggerModel;

    closed spec fn view(&self) -> TriggerModel {
        TriggerModel { dwell: self.dwell, cooldown: self.cooldown, state: self.state }
    }
}

/// `a - b`, or 0 where `b` is later than `a`.
pub open spec fn elapsed(a: u64, b: u64) -> int {
    if a >= b {
        a - b
    } else {
        0
    }
}

/// A fresh trigger: armed, with the cursor not resting anywhere.
pub open spec fn initial(dwell: u64, cooldown: u64) -> TriggerModel {
    TriggerModel { dwell, cooldown, state: State::Armed { resting: None } }
}

/// What one sample does to a trigger: its next state, and the edge it fires
/// at, if it fires.
pub open spec fn step(m: TriggerModel, s: Sample) -> (TriggerModel, Option<Edge>) {
    match m.state {
        State::Disarmed { edge, origin, until, moved_inland } => {
            let moved = moved_inland || inland_distance_spec(edge, origin, s.cursor)
                >= REARM_DISTANCE;
            let next = if moved && s.now >= until {
                State::Armed { resting: None }
            } else {
                State::Disarmed { edge, origin, until, moved_inland: moved }
            };
            (TriggerModel { state: next, ..m }, None)
        },
        State::Armed { resting } => match s.at {
            None => (TriggerModel { state: State::Armed { resting: None }, ..m }, None),
            Some(edge) => {
                let since = match resting {
                    Some((resting_at, since)) if resting_at == edge => since,
                    _ => s.now,
                };
                if elapsed(s.now, since) < m.dwell {
                    (TriggerModel { state: State::Armed { resting: Some((edge, since)) }, ..m }, None)
                } else {
                    (
                        TriggerModel {
                            state: State::Disarmed {
                                edge,
                                origin: s.cursor,
                                until: (s.now + m.cooldown) as u64,
                                moved_inland: false,
                            },
                            ..m
                        },
                        Some(edge),
                    )
                }
            },
        },
    }
}

impl Trigger {
    pub fn new(dwell: u64, cooldown: u64) -> (trigger: Self)
        ensures
            trigger@ == initial(dwell, cooldown),
    {
        Self { dwell, cooldown, state: State::Armed { resting: None } }
    }

    /// Feeds in one cursor sample and the edge it is at, if any. Returns the
    /// edge when the trigger fires.
    pub fn update(&mut self, now: u64, cursor: Point, at: Option<Edge>) -> (fired: Option<Edge>)
        requires
            step(old(self)@, Sample { now, cursor, at }).1 is Some ==> now + old(self)@.cooldown
                <= u64::MAX,
        ensures
            final(self)@ == step(old(self)@, Sample { now, cursor, at }).0,
            fired == step(old(self)@, Sample { now, cursor, at }).1,
    {
        match self.state {
            State::Disarmed { edge, origin, until, moved_inland } => {
                let moved = moved_inland || edge.inland_distance_wide(origin, cursor)
                    >= REARM_DISTANCE as i64;
                if moved && now >= until {
                    self.state = State::Armed { resting: None };
                } else {
                    self.state = State::Disarmed { edge, origin, until, moved_inland: moved };
                }
                None
            },
            State::Armed { resting } => {
                let edge = match at {
                    None => {
                        self.state = State::Armed { resting: None };
                        return None;
                    },
                    Some(edge) => edge,
                };
                let since = match resting {
                    Some((resting_at, since)) if resting_at == edge => since,
                    _ => now,
                };
                if now.saturating_sub(since) < self.dwell {
                    self.state = State::Armed { resting: Some((edge, since)) };
                    return None;
                }
                self.state = State::Disarmed {
                    edge,
                    origin: cursor,
                    until: now + self.cooldown,
                    moved_inland: false,
                };
                Some(edge)
            },
        }
    }
}

/// The trigger after it has taken `samples` in order.
pub open spec fn run(m: TriggerModel, samples: Seq<Sample>) -> TriggerModel
    decreases samples.len(),
{
    if samples.len() == 0 {
        m
    } else {
        step(run(m, samples.drop_last()), samples.last()).0
    }
}

/// What the trigger returned for the `k`-th of `samples`.
pub open spec fn fired_at(m: TriggerModel, samples: Seq<Sample>, k: int) -> Option<Edge> {
    step(run(m, samples.take(k)), samples[k]).1
}

/// Every sample from the `r`-th to the `k`-th was at `edge`.
pub open spec fn rested(samples: Seq<Sample>, r: int, k: int, edge: Edge) -> bool {
    forall|i: int| r <= i <= k ==> #[trigger] samples[i].at == Some(edge)
}

proof fn lemma_run_next(m: TriggerModel, samples: Seq<Sample>, k: int)
    requires
        0 <= k < samples.len(),
    ensures
        run(m, samples.take(k + 1)) == step(run(m, samples.take(k)), samples[k]).0,
{
    assert(samples.take(k + 1).drop_last() =~= samples.take(k));
    assert(samples.take(k + 1).last() == samples[k]);
}

proof fn lemma_run_keeps_timing(m: TriggerModel, samples: Seq<Sample>)
    ensures
        run(m, samples).dwell == m.dwell,
        run(m, samples).cooldown == m.cooldown,
    decreases samples.len(),
{
    if samples.len() > 0 {
        lemma_run_keeps_timing(m, samples.drop_last());
    }
}

/// While armed, a trigger that rests at an edge started resting at an
/// earlier sample that was at that edge, as was every sample since.
proof fn lemma_resting(dwell: u64, cooldown: u64, samples: Seq<Sample>, n: int)
    requires
        0 <= n <= samples.len(),
    ensures
        run(initial(dwell, cooldown), samples.take(n)).state matches State::Armed {
            resting: Some((edge, since)),
        } ==> exists|r: int|
            0 <= r < n && rested(samples, r, n - 1, edge) && #[trigger] samples[r].now == since,
    decreases n,
{
    let m0 = initial(dwell, cooldown);
    if n == 0 {
        assert(samples.take(0) =~= Seq::<Sample>::empty());
    } else {
        lemma_resting(dwell, cooldown, samples, n - 1);
        lemma_run_next(m0, samples, n - 1);
        let before = run(m0, samples.take(n - 1));
        let s = samples[n - 1];
        if let State::Armed { resting: Some((edge, since)) } = run(m0, samples.take(n)).state {
            if let State::Armed { resting: Some((e0, since0)) } = before.state {
                if e0 == edge && since0 == since && s.at == Some(edge) {
                    let r = choose|r: int|
                        0 <= r < n - 1 && rested(samples, r, n - 2, e0) && #[trigger] samples[r].now
                            == since0;
                    assert(rested(samples, r, n - 1, edge));
                } else {
                    assert(rested(samples, n - 1, n - 1, edge));
                }
            } else {
                assert(rested(samples, n - 1, n - 1, edge));
            }
        }
    }
}

/// A switch fires only once the cursor has rested at its edge for the dwell
/// time: from some sample `r` up to the one that fires, every sample was at
/// that edge, and at least `dwell` milliseconds passed between the two.
pub proof fn lemma_fires_only_after_dwell(
    dwell: u64,
    cooldown: u64,
    samples: Seq<Sample>,
    k: int,
)
    requires
        0 <= k < samples.len(),
        fired_at(initial(dwell, cooldown), samples, k) is Some,
    ensures
        exists|r: int|
            0 <= r <= k && rested(
                samples,
                r,
                k,
                fired_at(initial(dwell, cooldown), samples, k).unwrap(),
            ) && elapsed(samples[k].now, #[trigger] samples[r].now) >= dwell,
{
    let m0 = initial(dwell, cooldown);
    lemma_resting(dwell, cooldown, samples, k);
    let edge = fired_at(m0, samples, k).unwrap();
    let before = run(m0, samples.take(k));
    lemma_run_keeps_timing(m0, samples.take(k));
    if let State::Armed { resting: Some((e0, since0)) } = before.state {
        if e0 == edge {
            let r = choose|r: int|
                0 <= r < k && rested(samples, r, k - 1, e0) && #[trigger] samples[r].now == since0;
            assert(rested(samples, r, k, edge));
            assert(elapsed(samples[k].now, samples[r].now) >= dwell);
        } else {
            assert(rested(samples, k, k, edge));
            assert(elapsed(samples[k].now, samples[k].now) >= dwell);
        }
    } else {
        assert(rested(samples, k, k, edge));
        assert(elapsed(samples[k].now, samples[k].now) >= dwell);
    }
}

/// The samples up to the `k`-th come in time order.
pub open spec fn in_time_order(samples: Seq<Sample>, k: int) -> bool {
    forall|a: int, b: int| 0 <= a <= b <= k ==> #[trigger] samples[a].now <= #[trigger] samples[b].now
}

/// From an armed trigger at sample `r`, with every sample since at `edge`:
/// either it fired at `edge` before sample `n`, or it is still armed and,
/// past sample `r`, has been resting at `edge` since no later than sample
/// `r`.
proof fn lemma_resting_from(dwell: u64, cooldown: u64, samples: Seq<Sample>, r: int, n: int, edge: Edge)
    requires
        0 <= r <= n < samples.len(),
        run(initial(dwell, cooldown), samples.take(r)).state is Armed,
        forall|i: int| r <= i < n ==> #[trigger] samples[i].at == Some(edge),
        in_time_order(samples, n),
    ensures
        (exists|j: int|
            r <= j < n && #[trigger] fired_at(initial(dwell, cooldown), samples, j) == Some(edge))
            || (run(initial(dwell, cooldown), samples.take(n)).state matches State::Armed {
            resting,
        } && (n > r ==> (resting matches Some((e, since)) && e == edge && since
            <= samples[r].now))),
    decreases n - r,
{
    let m0 = initial(dwell, cooldown);
    if n > r {
        lemma_resting_from(dwell, cooldown, samples, r, n - 1, edge);
        lemma_run_next(m0, samples, n - 1);
        lemma_run_keeps_timing(m0, samples.take(n - 1));
        if !(exists|j: int| r <= j < n - 1 && #[trigger] fired_at(m0, samples, j) == Some(edge)) {
            let before = run(m0, samples.take(n - 1));
            let s = samples[n - 1];
            if let State::Armed { resting } = before.state {
                if n - 1 == r {
                    lemma_resting(dwell, cooldown, samples, r);
                    if let Some((e0, since0)) = resting {
                        let r0 = choose|r0: int|
                            0 <= r0 < r && rested(samples, r0, r - 1, e0) && #[trigger] samples[r0].now
                                == since0;
                        assert(samples[r0].now <= samples[r].now);
                    }
                }
                if fired_at(m0, samples, n - 1) is Some {
                    assert(fired_at(m0, samples, n - 1) == Some(edge));
                }
            }
        }
    }
}

/// A cursor that rests at an edge for the dwell time switches: where the
/// trigger is armed when sample `r` comes, and every sample from the `r`-th
/// to the `k`-th, at least `dwell` milliseconds later, is at `edge`, the
/// trigger fires at `edge` at one of them.
pub proof fn lemma_fires_once_rested(
    dwell: u64,
    cooldown: u64,
    samples: Seq<Sample>,
    r: int,
    k: int,
    edge: Edge,
)
    requires
        0 <= r <= k < samples.len(),
        run(initial(dwell, cooldown), samples.take(r)).state is Armed,
        rested(samples, r, k, edge),
        in_time_order(samples, k),
        elapsed(samples[k].now, samples[r].now) >= dwell,
    ensures
        exists|j: int|
            r <= j <= k && #[trigger] fired_at(initial(dwell, cooldown), samples, j) == Some(edge),
{
    let m0 = initial(dwell, cooldown);
    lemma_resting_from(dwell, cooldown, samples, r, k, edge);
    lemma_run_keeps_timing(m0, samples.take(k));
    if !(exists|j: int| r <= j < k && #[trigger] fired_at(m0, samples, j) == Some(edge)) {
        let before = run(m0, samples.take(k));
        assert(samples[k].at == Some(edge));
        if let State::Armed { resting } = before.state {
            if k == r {
                lemma_resting(dwell, cooldown, samples, r);
                if let Some((e0, since0)) = resting {
                    let r0 = choose|r0: int|
                        0 <= r0 < r && rested(samples, r0, r - 1, e0) && #[trigger] samples[r0].now
                            == since0;
                    assert(samples[r0].now <= samples[r].now);
                }
            }
        }
        assert(fired_at(m0, samples, k) == Some(edge));
    }
}

/// What holds `n` samples in, after a switch at sample `k` and no other
/// since: either the trigger is still disarmed, or the cursor has moved
/// inland and the cooldown has run out, and any rest started only after that.
proof fn lemma_after_fire(dwell: u64, cooldown: u64, samples: Seq<Sample>, k: int, n: int)
    requires
        0 <= k < n <= samples.len(),
        fired_at(initial(dwell, cooldown), samples, k) is Some,
        samples[k].now + cooldown <= u64::MAX,
        forall|i: int| k < i < n ==> (#[trigger] fired_at(initial(dwell, cooldown), samples, i)) is None,
    ensures
        ({
            let e = fired_at(initial(dwell, cooldown), samples, k).unwrap();
            let origin = samples[k].cursor;
            match run(initial(dwell, cooldown), samples.take(n)).state {
                State::Disarmed { edge, origin: o, until, moved_inland } => {
                    &&& edge == e
                    &&& o == origin
                    &&& until == samples[k].now + cooldown
                    &&& moved_inland ==> exists|j: int|
                        k < j < n && inland_distance_spec(e, origin, #[trigger] samples[j].cursor)
                            >= REARM_DISTANCE
                },
                State::Armed { resting } => {
                    exists|j: int, m: int|
                        k < j <= m < n && inland_distance_spec(
                            e,
                            origin,
                            #[trigger] samples[j].cursor,
                        ) >= REARM_DISTANCE && #[trigger] samples[m].now >= samples[k].now
                            + cooldown && (resting matches Some((edge, since)) ==> exists|r: int|
                            m < r < n && rested(samples, r, n - 1, edge) && #[trigger] samples[r].now
                                == since)
                },
            }
        }),
    decreases n - k,
{
    let m0 = initial(dwell, cooldown);
    let e = fired_at(m0, samples, k).unwrap();
    let origin = samples[k].cursor;
    lemma_run_next(m0, samples, n - 1);
    let before = run(m0, samples.take(n - 1));
    let s = samples[n - 1];
    lemma_run_keeps_timing(m0, samples.take(n - 1));
    if n == k + 1 {
    } else {
        lemma_after_fire(dwell, cooldown, samples, k, n - 1);
        assert(fired_at(m0, samples, n - 1) is None);
        match before.state {
            State::Disarmed { edge, origin: o, until, moved_inland } => {
                let moved = moved_inland || inland_distance_spec(edge, o, s.cursor)
                    >= REARM_DISTANCE;
                let j = if moved_inland {
                    choose|j: int|
                        k < j < n - 1 && inland_distance_spec(e, origin, #[trigger] samples[j].cursor)
                            >= REARM_DISTANCE
                } else {
                    n - 1
                };
                if moved {
                    assert(k < j < n && inland_distance_spec(e, origin, samples[j].cursor)
                        >= REARM_DISTANCE);
                }
                if moved && s.now >= until {
                    assert(samples[n - 1].now >= samples[k].now + cooldown);
                }
            },
            State::Armed { resting } => {
                let (j, m) = choose|j: int, m: int|
                    k < j <= m < n - 1 && inland_distance_spec(
                        e,
                        origin,
                        #[trigger] samples[j].cursor,
                    ) >= REARM_DISTANCE && #[trigger] samples[m].now >= samples[k].now + cooldown
                        && (resting matches Some((edge, since)) ==> exists|r: int|
                        m < r < n - 1 && rested(samples, r, n - 2, edge) && #[trigger] samples[r].now
                            == since);
                assert(k < j <= m < n && inland_distance_spec(e, origin, samples[j].cursor)
                    >= REARM_DISTANCE && samples[m].now >= samples[k].now + cooldown);
                if let State::Armed { resting: Some((edge, since)) } = run(
                    m0,
                    samples.take(n),
                ).state {
                    if let Some((e0, since0)) = resting {
                        if e0 == edge && since0 == since && s.at == Some(edge) {
                            let r = choose|r: int|
                                m < r < n - 1 && rested(samples, r, n - 2, e0)
                                    && #[trigger] samples[r].now == since0;
                            assert(rested(samples, r, n - 1, edge));
                        } else {
                            assert(rested(samples, n - 1, n - 1, edge));
                        }
                    } else {
                        assert(rested(samples, n - 1, n - 1, edge));
                    }
                }
            },
        }
    }
}

/// Between two switches, the cursor moved at least `REARM_DISTANCE` inland
/// from where the first one fired, the cooldown ran out, and only after that
/// did the cursor rest for a full dwell time at the edge of the second one.
pub proof fn lemma_rearms_between_switches(
    dwell: u64,
    cooldown: u64,
    samples: Seq<Sample>,
    k1: int,
    k2: int,
)
    requires
        0 <= k1 < k2 < samples.len(),
        fired_at(initial(dwell, cooldown), samples, k1) is Some,
        fired_at(initial(dwell, cooldown), samples, k2) is Some,
        forall|i: int| k1 < i < k2 ==> (#[trigger] fired_at(initial(dwell, cooldown), samples, i)) is None,
        samples[k1].now + cooldown <= u64::MAX,
    ensures
        exists|j: int, m: int, r: int|
            k1 < j <= m < r <= k2 && inland_distance_spec(
                fired_at(initial(dwell, cooldown), samples, k1).unwrap(),
                samples[k1].cursor,
                #[trigger] samples[j].cursor,
            ) >= REARM_DISTANCE && #[trigger] samples[m].now >= samples[k1].now + cooldown
                && rested(samples, r, k2, fired_at(initial(dwell, cooldown), samples, k2).unwrap())
                && elapsed(samples[k2].now, #[trigger] samples[r].now) >= dwell,
{
    let m0 = initial(dwell, cooldown);
    lemma_after_fire(dwell, cooldown, samples, k1, k2);
    let e1 = fired_at(m0, samples, k1).unwrap();
    let e2 = fired_at(m0, samples, k2).unwrap();
    let before = run(m0, samples.take(k2));
    lemma_run_keeps_timing(m0, samples.take(k2));
    if let State::Armed { resting } = before.state {
        let (j, m) = choose|j: int, m: int|
            k1 < j <= m < k2 && inland_distance_spec(
                e1,
                samples[k1].cursor,
                #[trigger] samples[j].cursor,
            ) >= REARM_DISTANCE && #[trigger] samples[m].now >= samples[k1].now + cooldown && (
            resting matches Some((edge, since)) ==> exists|r: int|
                m < r < k2 && rested(samples, r, k2 - 1, edge) && #[trigger] samples[r].now
                    == since);
        if let Some((e0, since0)) = resting {
            if e0 == e2 {
                let r = choose|r: int|
                    m < r < k2 && rested(samples, r, k2 - 1, e0) && #[trigger] samples[r].now
                        == since0;
                assert(rested(samples, r, k2, e2));
                assert(elapsed(samples[k2].now, samples[r].now) >= dwell);
            } else {
                assert(rested(samples, k2, k2, e2));
                assert(elapsed(samples[k2].now, samples[k2].now) >= dwell);
            }
        } else {
            assert(rested(samples, k2, k2, e2));
            assert(elapsed(samples[k2].now, samples[k2].now) >= dwell);
        }
    }
}

} // verus!
