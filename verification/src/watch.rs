//! The `--watch` loop's decisions: sample the cursor, and say when to switch.

use vstd::prelude::*;

use crate::config::{
    configured_edges, copy_devices, device_views, edge_channel, Channel, Config, Device,
    DeviceView, Edges,
};
use crate::hid::{Hid, Interface, InterfaceView, IoError, Opens};
use crate::switch::{not_switched, not_switched_devices, outcomes_of, switch_outcomes};
use crate::desktop::{edge_at, first_edge_at, lemma_first_edge_at, on_edge, Desktop, Edge, Point};
use crate::trigger::{initial, step, Sample, Trigger, TriggerModel};

verus! {

/// How often the cursor is sampled, in milliseconds.
pub const POLL_INTERVAL_MS: u64 = 20;

/// How often devices that did not switch are tried again, in milliseconds.
pub const RETRY_INTERVAL_MS: u64 = 500;

/// For how long after a switch devices that did not switch are tried again,
/// in milliseconds.
pub const RETRY_FOR_MS: u64 = 60_000;

/// Watches the cursor for a configured edge, switches the devices, and
/// tries again those that did not switch.
pub struct Watcher {
    edges: Edges,
    trigger: Trigger,
    devices: Vec<Device>,
    pending: Option<Pending>,
}

/// Devices left behind by a switch, to be tried again.
pub struct Pending {
    /// The channel they are to switch to.
    pub channel: Channel,
    /// The devices that did not switch yet, in the order of the config.
    pub devices: Vec<Device>,
    /// Where the cursor was at the switch.
    pub origin: Point,
    /// When to stop trying.
    pub until: u64,
    /// When to try next.
    pub next: u64,
}

/// Pending retries as plain values.
pub struct PendingView {
    pub channel: Channel,
    pub devices: Seq<DeviceView>,
    pub origin: Point,
    pub until: u64,
    pub next: u64,
}

impl View for Pending {
    type V = PendingView;

    open spec fn view(&self) -> PendingView {
        PendingView {
            channel: self.channel,
            devices: device_views(self.devices@),
            origin: self.origin,
            until: self.until,
            next: self.next,
        }
    }
}

/// What to do about devices left behind.
#[derive(Debug, PartialEq, Eq, Structural)]
pub enum RetryStep {
    /// Nothing yet.
    Wait,
    /// Try them again now.
    Retry,
    /// Stop trying: the cursor moved, so the mouse is back or another one is
    /// in use, or the time for retries is up.
    Stop,
}

/// What to do about the devices left behind at `origin`, with retries due at
/// `next` until `until`, given a cursor reading at `now`. A cursor that
/// cannot be read has not moved.
pub open spec fn retry_step_spec(origin: Point, until: u64, next: u64, reading: Option<Point>, now: u64) -> RetryStep {
    if reading matches Some(cursor) && cursor != origin {
        RetryStep::Stop
    } else if now >= until {
        RetryStep::Stop
    } else if now >= next {
        RetryStep::Retry
    } else {
        RetryStep::Wait
    }
}

/// Decides what to do about the devices left behind by a switch.
pub fn retry_step(pending: &Pending, reading: Option<Point>, now: u64) -> (decision: RetryStep)
    ensures
        decision == retry_step_spec(pending.origin, pending.until, pending.next, reading, now),
{
    let moved = match reading {
        Some(cursor) => cursor != pending.origin,
        None => false,
    };
    if moved {
        RetryStep::Stop
    } else if now >= pending.until {
        RetryStep::Stop
    } else if now >= pending.next {
        RetryStep::Retry
    } else {
        RetryStep::Wait
    }
}

/// Retries stop for good once the cursor moves away from where it was at
/// the switch, or once the time for retries is up; a retry happens only when
/// one is due.
pub proof fn lemma_retries_stop(origin: Point, until: u64, next: u64, reading: Option<Point>, now: u64)
    ensures
        (reading matches Some(cursor) && cursor != origin) ==> retry_step_spec(
            origin,
            until,
            next,
            reading,
            now,
        ) == RetryStep::Stop,
        now >= until ==> retry_step_spec(origin, until, next, reading, now) == RetryStep::Stop,
        retry_step_spec(origin, until, next, reading, now) == RetryStep::Retry ==> next <= now
            < until,
{
}

/// What one step of the watch loop did, for the log.
pub enum WatchEvent {
    Idle,
    /// The devices were switched to `channel`; `failed` did not switch.
    /// `outcomes` is why: enumeration's failure, or each device's outcome,
    /// in the order of the config.
    Switched {
        channel: Channel,
        failed: Vec<Device>,
        outcomes: Result<Vec<Result<(), String>>, IoError>,
    },
    /// The devices left behind, `tried`, were tried again; `failed` still
    /// did not switch. `outcomes` is why: enumeration's failure, or each
    /// device's outcome, in the order of `tried`.
    Retried {
        channel: Channel,
        tried: Vec<Device>,
        failed: Vec<Device>,
        outcomes: Result<Vec<Result<(), String>>, IoError>,
    },
    /// Retries stopped, with these devices left behind.
    GaveUp { channel: Channel, failed: Vec<Device> },
}

/// What one cursor reading does to a watcher with `edges` and `trigger`:
/// the trigger's next state, and the channel to switch to, if any. A reading
/// of `None` (the cursor could not be read) changes nothing. Otherwise the
/// trigger is fed the first configured edge the cursor is at.
pub open spec fn sample_step<D: Desktop>(
    edges: Edges,
    trigger: TriggerModel,
    desktop: &D,
    reading: Option<Point>,
    now: u64,
) -> (TriggerModel, Option<Channel>) {
    match reading {
        None => (trigger, None),
        Some(cursor) => {
            let at = first_edge_at(desktop, cursor, configured_edges(edges));
            let (next, fired) = step(trigger, Sample { now, cursor, at });
            (
                next,
                match fired {
                    Some(edge) => edge_channel(edges, edge),
                    None => None,
                },
            )
        },
    }
}

/// Whether the trigger fires on the reading.
pub open spec fn sample_fires<D: Desktop>(
    edges: Edges,
    trigger: TriggerModel,
    desktop: &D,
    reading: Option<Point>,
    now: u64,
) -> bool {
    match reading {
        None => false,
        Some(cursor) => step(
            trigger,
            Sample { now, cursor, at: first_edge_at(desktop, cursor, configured_edges(edges)) },
        ).1 is Some,
    }
}

impl Watcher {
    pub fn new(config: &Config) -> (watcher: Result<Self, String>)
        ensures
            match watcher {
                Ok(w) => configured_edges(config.edges).len() > 0 && w.edges() == config.edges
                    && w.trigger() == initial(config.dwell, config.cooldown) && w.devices()
                    == device_views(config.devices@) && w.pending() is None,
                Err(message) => configured_edges(config.edges).len() == 0 && message@
                    == "no edge has a channel in [edges]"@,
            },
    {
        if config.edges.configured().len() == 0 {
            return Err("no edge has a channel in [edges]".to_owned());
        }
        Ok(
            Self {
                edges: config.edges,
                trigger: Trigger::new(config.dwell, config.cooldown),
                devices: copy_devices(config.devices.as_slice()),
                pending: None,
            },
        )
    }

    /// The devices to switch, in order.
    pub closed spec fn devices(&self) -> Seq<DeviceView> {
        device_views(self.devices@)
    }

    /// The devices left behind by the last switch, if any.
    pub closed spec fn pending(&self) -> Option<PendingView> {
        match self.pending {
            Some(p) => Some(p@),
            None => None,
        }
    }

    /// The channel each edge switches to.
    pub closed spec fn edges(&self) -> Edges {
        self.edges
    }

    /// The trigger's timing and state.
    pub closed spec fn trigger(&self) -> TriggerModel {
        self.trigger@
    }

    /// Samples the cursor once. Returns the channel to switch to, if any.
    pub fn poll<D: Desktop>(&mut self, desktop: &D, now: u64) -> (channel: Option<Channel>)
        requires
            now + old(self).trigger().cooldown <= u64::MAX,
        ensures
            final(self).edges() == old(self).edges(),
            final(self).devices() == old(self).devices(),
            final(self).pending() == old(self).pending(),
            exists|reading: Option<Point>|
                (final(self).trigger(), channel) == sample_step(
                    old(self).edges(),
                    old(self).trigger(),
                    desktop,
                    reading,
                    now,
                ),
    {
        let cursor = desktop.cursor();
        self.sample(desktop, cursor, now)
    }

    /// Takes one cursor reading, `None` when the cursor could not be read.
    /// Returns the channel to switch to, if any.
    pub fn sample<D: Desktop>(&mut self, desktop: &D, cursor: Option<Point>, now: u64) -> (channel:
        Option<Channel>)
        requires
            sample_fires(old(self).edges(), old(self).trigger(), desktop, cursor, now) ==> now
                + old(self).trigger().cooldown <= u64::MAX,
        ensures
            final(self).edges() == old(self).edges(),
            final(self).devices() == old(self).devices(),
            final(self).pending() == old(self).pending(),
            (final(self).trigger(), channel) == sample_step(
                old(self).edges(),
                old(self).trigger(),
                desktop,
                cursor,
                now,
            ),
    {
        let cursor = match cursor {
            None => return None,
            Some(cursor) => cursor,
        };
        let edges = self.edges.configured();
        let at = edge_at(desktop, cursor, edges.as_slice());
        let edge = self.trigger.update(now, cursor, at)?;
        self.edges.channel(edge)
    }

    /// One step of the watch loop: reads the cursor, tries again the devices
    /// left behind when a retry is due, and switches the devices when the
    /// cursor has rested at a configured edge. What the retry opens comes
    /// first, then what the switch opens. The event is the switch's, if
    /// there is one, else the retry's.
    pub fn tick<D: Desktop, H: Hid>(&mut self, desktop: &D, hid: &mut H, now: u64) -> (event:
        WatchEvent)
        requires
            now + old(self).trigger().cooldown <= u64::MAX,
            now + RETRY_FOR_MS <= u64::MAX,
        ensures
            final(self).edges() == old(self).edges(),
            final(self).devices() == old(self).devices(),
            exists|
                reading: Option<Point>,
                kept: Option<PendingView>,
                retry_event: WatchEvent,
                retry_opened: Opens,
                switch_opened: Opens,
            |
                final(hid).opens() == #[trigger] (old(hid).opens() + retry_opened + switch_opened)
                    && #[trigger] retried::<H>(
                    old(self).pending(),
                    kept,
                    reading,
                    now,
                    retry_event,
                    retry_opened,
                ) && final(self).trigger() == sample_step(
                    old(self).edges(),
                    old(self).trigger(),
                    desktop,
                    reading,
                    now,
                ).0 && match sample_step(
                    old(self).edges(),
                    old(self).trigger(),
                    desktop,
                    reading,
                    now,
                ).1 {
                    Some(ch) => switched::<H>(
                        ch,
                        reading,
                        now,
                        old(self).devices(),
                        event,
                        final(self).pending(),
                        switch_opened,
                    ),
                    None => final(self).pending() == kept && event == retry_event && switch_opened
                        == Seq::<InterfaceView>::empty(),
                },
    {
        let reading = desktop.cursor();
        let ghost start = hid.opens();
        let event = self.retry(hid, reading, now);
        let ghost kept = self.pending();
        let ghost retry_event = event;
        let ghost retry_opened = choose|opened: Opens|
            hid.opens() == start + opened && #[trigger] retried::<H>(
                old(self).pending(),
                kept,
                reading,
                now,
                retry_event,
                opened,
            );
        let ghost middle = hid.opens();
        match self.sample(desktop, reading, now) {
            None => {
                assert(hid.opens() =~= start + retry_opened + Seq::<InterfaceView>::empty());
                event
            },
            Some(channel) => {
                let listed = hid.interfaces();
                let ghost enumerated = listed;
                let outcomes = switch_outcomes(hid, listed, self.devices.as_slice(), channel);
                let failed = not_switched_devices(self.devices.as_slice(), &outcomes);
                let ghost switch_opened = choose|opened: Opens|
                    hid.opens() == middle + opened && #[trigger] outcomes_of::<H>(
                        enumerated,
                        channel,
                        device_views(self.devices@),
                        outcomes,
                        opened,
                    );
                if failed.len() == 0 {
                    self.pending = None;
                } else {
                    self.pending = Some(
                        Pending {
                            channel,
                            devices: copy_devices(failed.as_slice()),
                            origin: reading.unwrap(),
                            until: now + RETRY_FOR_MS,
                            next: now + RETRY_INTERVAL_MS,
                        },
                    );
                }
                assert(H::listed(enumerated) && outcomes_of::<H>(
                    enumerated,
                    channel,
                    self.devices(),
                    outcomes,
                    switch_opened,
                ));
                assert(hid.opens() =~= start + retry_opened + switch_opened);
                WatchEvent::Switched { channel, failed, outcomes }
            },
        }
    }

    /// Tries again the devices left behind, if a retry is due.
    fn retry<H: Hid>(&mut self, hid: &mut H, reading: Option<Point>, now: u64) -> (event: WatchEvent)
        requires
            now + RETRY_INTERVAL_MS <= u64::MAX,
        ensures
            final(self).edges() == old(self).edges(),
            final(self).devices() == old(self).devices(),
            final(self).trigger() == old(self).trigger(),
            exists|opened: Opens|
                final(hid).opens() == old(hid).opens() + opened && #[trigger] retried::<H>(
                    old(self).pending(),
                    final(self).pending(),
                    reading,
                    now,
                    event,
                    opened,
                ),
    {
        let step = match &self.pending {
            None => {
                assert(hid.opens() =~= old(hid).opens() + Seq::<InterfaceView>::empty());
                let event = WatchEvent::Idle;
                assert(retried::<H>(old(self).pending(), self.pending(), reading, now, event, Seq::empty()));
                return event;
            },
            Some(pending) => retry_step(pending, reading, now),
        };
        assert(hid.opens() =~= old(hid).opens() + Seq::<InterfaceView>::empty());
        match step {
            RetryStep::Wait => {
                let event = WatchEvent::Idle;
                assert(retried::<H>(old(self).pending(), self.pending(), reading, now, event, Seq::empty()));
                event
            },
            RetryStep::Stop => {
                let pending = self.pending.take().unwrap();
                let event = WatchEvent::GaveUp { channel: pending.channel, failed: pending.devices };
                assert(retried::<H>(old(self).pending(), self.pending(), reading, now, event, Seq::empty()));
                event
            },
            RetryStep::Retry => {
                let pending = self.pending.take().unwrap();
                let listed = hid.interfaces();
                let ghost enumerated = listed;
                let outcomes = switch_outcomes(hid, listed, pending.devices.as_slice(), pending.channel);
                let failed = not_switched_devices(pending.devices.as_slice(), &outcomes);
                let ghost opened = choose|opened: Opens|
                    hid.opens() == old(hid).opens() + opened && #[trigger] outcomes_of::<H>(
                        enumerated,
                        pending.channel,
                        device_views(pending.devices@),
                        outcomes,
                        opened,
                    );
                if failed.len() > 0 {
                    self.pending = Some(
                        Pending {
                            channel: pending.channel,
                            devices: copy_devices(failed.as_slice()),
                            origin: pending.origin,
                            until: pending.until,
                            next: now + RETRY_INTERVAL_MS,
                        },
                    );
                }
                assert(H::listed(enumerated) && outcomes_of::<H>(
                    enumerated,
                    pending.channel,
                    pending@.devices,
                    outcomes,
                    opened,
                ));
                assert(device_views(failed@).len() == failed@.len());
                let event = WatchEvent::Retried {
                    channel: pending.channel,
                    tried: pending.devices,
                    failed,
                    outcomes,
                };
                assert(retried::<H>(old(self).pending(), self.pending(), reading, now, event, opened));
                event
            },
        }
    }
}

/// What a retry step does to the devices left behind, what it reports
/// (`event`) and what it opens (`opened`): nothing when none are left
/// behind; otherwise it keeps them while waiting, and drops them and gives
/// up when it stops. A retry tries them again in order, reports why each
/// did not switch, and keeps exactly those that did not (in order), due
/// again `RETRY_INTERVAL_MS` later, none only when all of them switched.
/// Only a retry opens anything.
pub open spec fn retried<H: Hid>(
    before: Option<PendingView>,
    after: Option<PendingView>,
    reading: Option<Point>,
    now: u64,
    event: WatchEvent,
    opened: Opens,
) -> bool {
    match before {
        None => after is None && event is Idle && opened == Seq::<InterfaceView>::empty(),
        Some(p) => match retry_step_spec(p.origin, p.until, p.next, reading, now) {
            RetryStep::Wait => after == Some(p) && event is Idle && opened == Seq::<
                InterfaceView,
            >::empty(),
            RetryStep::Stop => {
                &&& after is None
                &&& opened == Seq::<InterfaceView>::empty()
                &&& event matches WatchEvent::GaveUp { channel, failed }
                &&& channel == p.channel
                &&& device_views(failed@) == p.devices
            },
            RetryStep::Retry => {
                &&& event matches WatchEvent::Retried { channel, tried, failed, outcomes }
                &&& channel == p.channel
                &&& device_views(tried@) == p.devices
                &&& exists|listed: Result<Vec<Interface>, IoError>|
                    #[trigger] H::listed(listed) && outcomes_of::<H>(
                        listed,
                        p.channel,
                        p.devices,
                        outcomes,
                        opened,
                    )
                &&& device_views(failed@) == not_switched(p.devices, outcomes)
                &&& if failed@.len() == 0 {
                    after is None
                } else {
                    after == Some(
                        PendingView {
                            channel: p.channel,
                            devices: device_views(failed@),
                            origin: p.origin,
                            until: p.until,
                            next: (now + RETRY_INTERVAL_MS) as u64,
                        },
                    )
                }
            },
        },
    }
}

/// What a switch to `ch` with the cursor at `reading` leaves: the event
/// reports the switch, why each of `devices` did or did not switch, and
/// those that did not, which, if any, are left behind to be tried again
/// from `now` on. The switch opened `opened`.
pub open spec fn switched<H: Hid>(
    ch: Channel,
    reading: Option<Point>,
    now: u64,
    devices: Seq<DeviceView>,
    event: WatchEvent,
    after: Option<PendingView>,
    opened: Opens,
) -> bool {
    &&& reading is Some
    &&& event matches WatchEvent::Switched { channel, failed, outcomes }
    &&& channel == ch
    &&& exists|listed: Result<Vec<Interface>, IoError>|
        #[trigger] H::listed(listed) && outcomes_of::<H>(listed, ch, devices, outcomes, opened)
    &&& device_views(failed@) == not_switched(devices, outcomes)
    &&& if failed@.len() == 0 {
        after is None
    } else {
        after == Some(
            PendingView {
                channel: ch,
                devices: device_views(failed@),
                origin: reading.unwrap(),
                until: (now + RETRY_FOR_MS) as u64,
                next: (now + RETRY_INTERVAL_MS) as u64,
            },
        )
    }
}

/// A watcher switches only when its trigger fires, and then to the channel
/// of the configured edge that the cursor is at.
pub proof fn lemma_switches_to_the_channel_of_the_edge<D: Desktop>(
    edges: Edges,
    trigger: TriggerModel,
    desktop: &D,
    reading: Option<Point>,
    now: u64,
)
    ensures
        sample_step(edges, trigger, desktop, reading, now).1 is Some <==> sample_fires(
            edges,
            trigger,
            desktop,
            reading,
            now,
        ),
        sample_step(edges, trigger, desktop, reading, now).1 matches Some(channel) ==> (
        reading matches Some(cursor) && exists|edge: Edge|
            configured_edges(edges).contains(edge) && on_edge(desktop, cursor, edge)
                && edge_channel(edges, edge) == Some(channel)),
{
    if let Some(cursor) = reading {
        let listed = configured_edges(edges);
        lemma_first_edge_at(desktop, cursor, listed);
        if let Some(edge) = first_edge_at(desktop, cursor, listed) {
            let i = choose|i: int|
                0 <= i < listed.len() && listed[i] == edge && on_edge(desktop, cursor, edge)
                    && forall|j: int| 0 <= j < i ==> !on_edge(desktop, cursor, #[trigger] listed[j]);
            assert(listed.contains(edge));
            assert(edge_channel(edges, edge) is Some);
        }
    }
}

} // verus!
