//! Switching every configured device to a channel.

use vstd::prelude::*;

use crate::config::{copy_devices, device_views, Channel, Device, DeviceView};
use crate::hid::{
    hidpp_opened, hidpp_opens, matches_spec, open_hidpp, views, Handle, Hid, Interface,
    InterfaceView, IoError, Joined, Opens,
};
use crate::hidpp;

verus! {

/// Whether some interface of `interfaces` is the HID++ interface `device`
/// names.
pub open spec fn connected(interfaces: Seq<InterfaceView>, device: DeviceView) -> bool {
    exists|k: int| 0 <= k < interfaces.len() && matches_spec(#[trigger] interfaces[k], device)
}

/// The devices of `devices` whose outcome in `outcomes` (one per device,
/// in the same order) is a failure, in order.
pub open spec fn failed_of(devices: Seq<DeviceView>, outcomes: Seq<Result<(), String>>) -> Seq<
    DeviceView,
>
    decreases devices.len(),
{
    if devices.len() == 0 || outcomes.len() == 0 {
        seq![]
    } else {
        let before = failed_of(devices.drop_last(), outcomes.drop_last());
        if outcomes.last() is Err {
            before.push(devices.last())
        } else {
            before
        }
    }
}

/// Whether `at` picks `failed` out of `devices`: in increasing order, only
/// devices whose outcome in `outcomes` is a failure, and every such device.
pub open spec fn picks_failures(
    devices: Seq<DeviceView>,
    outcomes: Seq<Result<(), String>>,
    failed: Seq<DeviceView>,
    at: Seq<int>,
) -> bool {
    &&& at.len() == failed.len()
    &&& forall|i: int|
        0 <= i < at.len() ==> 0 <= #[trigger] at[i] < devices.len() && failed[i] == devices[at[i]]
            && outcomes[at[i]] is Err
    &&& forall|i: int, k: int| 0 <= i < k < at.len() ==> #[trigger] at[i] < #[trigger] at[k]
    &&& forall|j: int|
        0 <= j < devices.len() && (#[trigger] outcomes[j]) is Err ==> exists|i: int|
            0 <= i < at.len() && at[i] == j
}

/// The devices that did not switch are exactly those whose own outcome is a
/// failure, each once and in the order given.
pub proof fn lemma_failed_are_the_failures(
    devices: Seq<DeviceView>,
    outcomes: Seq<Result<(), String>>,
)
    requires
        outcomes.len() == devices.len(),
    ensures
        exists|at: Seq<int>| #[trigger] picks_failures(devices, outcomes, failed_of(devices, outcomes), at),
    decreases devices.len(),
{
    let failed = failed_of(devices, outcomes);
    if devices.len() == 0 {
        let at: Seq<int> = seq![];
        assert(picks_failures(devices, outcomes, failed, at));
    } else {
        let d = devices.drop_last();
        let o = outcomes.drop_last();
        lemma_failed_are_the_failures(d, o);
        let before = failed_of(d, o);
        let at0 = choose|at: Seq<int>| #[trigger] picks_failures(d, o, before, at);
        let last = devices.len() - 1;
        if outcomes.last() is Err {
            let at = at0.push(last);
            assert(failed == before.push(devices.last()));
            assert forall|i: int| 0 <= i < at.len() implies 0 <= #[trigger] at[i] < devices.len()
                && failed[i] == devices[at[i]] && outcomes[at[i]] is Err by {
                if i < at0.len() {
                    assert(at[i] == at0[i]);
                    assert(d[at0[i]] == devices[at0[i]]);
                    assert(o[at0[i]] == outcomes[at0[i]]);
                }
            }
            assert forall|j: int| 0 <= j < devices.len() && (#[trigger] outcomes[j]) is Err implies exists|
                i: int,
            | 0 <= i < at.len() && at[i] == j by {
                if j < last {
                    assert(o[j] == outcomes[j]);
                    let i = choose|i: int| 0 <= i < at0.len() && at0[i] == j;
                    assert(at[i] == j);
                } else {
                    assert(at[at0.len() as int] == j);
                }
            }
            assert forall|i: int, k: int| 0 <= i < k < at.len() implies #[trigger] at[i] < #[trigger] at[k] by {
                assert(at[i] == at0[i]);
                if k < at0.len() {
                    assert(at[k] == at0[k]);
                }
            }
            assert(picks_failures(devices, outcomes, failed, at));
        } else {
            assert(failed == before);
            assert forall|i: int| 0 <= i < at0.len() implies 0 <= #[trigger] at0[i] < devices.len()
                && failed[i] == devices[at0[i]] && outcomes[at0[i]] is Err by {
                assert(d[at0[i]] == devices[at0[i]]);
                assert(o[at0[i]] == outcomes[at0[i]]);
            }
            assert forall|j: int| 0 <= j < devices.len() && (#[trigger] outcomes[j]) is Err implies exists|
                i: int,
            | 0 <= i < at0.len() && at0[i] == j by {
                assert(j < last);
                assert(o[j] == outcomes[j]);
            }
            assert(picks_failures(devices, outcomes, failed, at0));
        }
    }
}

/// Whether telling the device at `device_index` behind `handle` to switch
/// to `host` can come to `switched`, as [`hidpp::change_host`] does it.
pub open spec fn host_changed<T: Handle>(
    handle: T,
    device_index: u8,
    host: u8,
    switched: Result<(), hidpp::Error>,
) -> bool {
    exists|lookup: Seq<hidpp::Exchange>, found: Result<u8, hidpp::Error>, set: hidpp::Exchange|
        #[trigger] hidpp::host_change_trace(handle, device_index, host, lookup, found, set, switched)
}

/// The zero-based host of `channel`.
pub open spec fn host_of(channel: Channel) -> u8 {
    (channel.number() - 1) as u8
}

/// Whether `k` is where the first interface of `interfaces` that `device`
/// names stands.
pub open spec fn match_index(interfaces: Seq<Interface>, device: DeviceView, k: int) -> bool {
    &&& 0 <= k < interfaces.len()
    &&& matches_spec(interfaces[k]@, device)
    &&& forall|j: int| 0 <= j < k ==> !matches_spec(#[trigger] interfaces[j]@, device)
}

/// What switching `device` to `channel` can come to, given the interfaces
/// found, and what it opens (`opened`): "not connected" where none is the
/// device's, and nothing opened; otherwise the first that is is opened for
/// HID++, and the outcome is why it could not be opened, or what ChangeHost,
/// told the device's index and the channel's host on the opened handle, came
/// to.
pub open spec fn tried<H: Hid>(
    interfaces: Seq<Interface>,
    device: DeviceView,
    channel: Channel,
    outcome: Result<(), String>,
    opened: Opens,
) -> bool {
    if !connected(views(interfaces), device) {
        &&& outcome matches Err(message) && message@ == "not connected"@
        &&& opened == Seq::<InterfaceView>::empty()
    } else {
        exists|k: int|
            #[trigger] match_index(interfaces, device, k) && ((exists|e: IoError|
                #[trigger] hidpp_opened::<H>(interfaces[k]@, interfaces, Err(e)) && (
                outcome matches Err(message) && message@ == "cannot open: "@ + e@) && opened
                == hidpp_opens(interfaces[k]@, interfaces, false)) || (exists|
                j: Joined<H::Handle>,
                r: Result<(), hidpp::Error>,
            |
                #[trigger] hidpp_opened::<H>(interfaces[k]@, interfaces, Ok(j)) && #[trigger] host_changed(
                    j,
                    device.device_index,
                    host_of(channel),
                    r,
                ) && match r {
                    Ok(()) => outcome is Ok,
                    Err(e) => outcome matches Err(message) && message@ == hidpp::error_message(&e),
                } && opened == hidpp_opens(interfaces[k]@, interfaces, true)))
    }
}

/// What trying `devices` in turn to switch to `channel` came to, given what
/// enumeration came to, and what it opened (`opened`): the enumeration's
/// failure, with nothing opened; otherwise each device's outcome, in the
/// order of `devices`, with what each try opened, in that order.
pub open spec fn outcomes_of<H: Hid>(
    listed: Result<Vec<Interface>, IoError>,
    channel: Channel,
    devices: Seq<DeviceView>,
    outcomes: Result<Vec<Result<(), String>>, IoError>,
    opened: Opens,
) -> bool {
    match listed {
        Err(e) => outcomes matches Err(f) && f@ == e@ && opened == Seq::<InterfaceView>::empty(),
        Ok(interfaces) => outcomes matches Ok(each_outcome) && exists|each: Seq<Opens>|
            #[trigger] tried_each::<H>(interfaces@, channel, devices, each_outcome@, each) && opened
                == each.flatten(),
    }
}

/// The devices of `devices` that did not switch, given the outcomes: all of
/// them when the interfaces could not be enumerated; otherwise those whose
/// own outcome is a failure, in order.
pub open spec fn not_switched(
    devices: Seq<DeviceView>,
    outcomes: Result<Vec<Result<(), String>>, IoError>,
) -> Seq<DeviceView> {
    match outcomes {
        Err(_) => devices,
        Ok(each_outcome) => failed_of(devices, each_outcome@),
    }
}

/// What a switch of `devices` reports, given what enumeration came to: the
/// devices that did not switch, in the order listed, and the interfaces it
/// opened (`opened`), as [`outcomes_of`] and [`not_switched`] say.
pub open spec fn switch_report<H: Hid>(
    listed: Result<Vec<Interface>, IoError>,
    channel: Channel,
    devices: Seq<DeviceView>,
    failed: Seq<DeviceView>,
    opened: Opens,
) -> bool {
    exists|outcomes: Result<Vec<Result<(), String>>, IoError>|
        #[trigger] outcomes_of::<H>(listed, channel, devices, outcomes, opened) && failed
            == not_switched(devices, outcomes)
}

/// Whether trying each of `devices` in turn, among `interfaces`, came to
/// `outcomes` and opened `each`, one of each per device, in order.
pub open spec fn tried_each<H: Hid>(
    interfaces: Seq<Interface>,
    channel: Channel,
    devices: Seq<DeviceView>,
    outcomes: Seq<Result<(), String>>,
    each: Seq<Opens>,
) -> bool {
    &&& outcomes.len() == devices.len()
    &&& each.len() == devices.len()
    &&& forall|j: int|
        0 <= j < devices.len() ==> tried::<H>(
            interfaces,
            devices[j],
            channel,
            #[trigger] outcomes[j],
            each[j],
        )
}

/// Switches `devices` to `channel` in the order given. A device that is not
/// connected or fails to switch is skipped. Returns the devices that did not
/// switch.
///
/// Devices are looked up and opened afresh on every switch rather than kept
/// open: a device that has been away on another host comes back as a new HID
/// device, and a fresh handle has no stale input queued up.
pub fn switch_all<H: Hid>(hid: &mut H, devices: &[Device], channel: Channel) -> (failed: Vec<
    Device,
>)
    ensures
        exists|listed: Result<Vec<Interface>, IoError>, opened: Opens|
            #[trigger] H::listed(listed) && final(hid).opens() == old(hid).opens() + opened
                && #[trigger] switch_report::<H>(
                listed,
                channel,
                device_views(devices@),
                device_views(failed@),
                opened,
            ),
{
    let interfaces = hid.interfaces();
    let ghost listed = interfaces;
    let failed = switch_listed(hid, interfaces, devices, channel);
    assert(H::listed(listed));
    failed
}

/// Like [`switch_all`], for devices that have failed before.
pub fn retry_all<H: Hid>(hid: &mut H, devices: &[Device], channel: Channel) -> (failed: Vec<
    Device,
>)
    ensures
        exists|listed: Result<Vec<Interface>, IoError>, opened: Opens|
            #[trigger] H::listed(listed) && final(hid).opens() == old(hid).opens() + opened
                && #[trigger] switch_report::<H>(
                listed,
                channel,
                device_views(devices@),
                device_views(failed@),
                opened,
            ),
{
    let interfaces = hid.interfaces();
    let ghost listed = interfaces;
    let failed = switch_listed(hid, interfaces, devices, channel);
    assert(H::listed(listed));
    failed
}

/// Switches `devices` to `channel`, given the interfaces that enumeration
/// found, or its failure. Returns the devices that did not switch: all of
/// them where enumeration failed, otherwise [`failed_devices`] of the
/// outcomes of [`switch_each`].
pub fn switch_listed<H: Hid>(
    hid: &mut H,
    interfaces: Result<Vec<Interface>, IoError>,
    devices: &[Device],
    channel: Channel,
) -> (failed: Vec<Device>)
    ensures
        exists|opened: Opens|
            final(hid).opens() == old(hid).opens() + opened && #[trigger] switch_report::<H>(
                interfaces,
                channel,
                device_views(devices@),
                device_views(failed@),
                opened,
            ),
{
    let ghost listed = interfaces;
    let outcomes = switch_outcomes(hid, interfaces, devices, channel);
    let failed = not_switched_devices(devices, &outcomes);
    let ghost opened = choose|opened: Opens|
        hid.opens() == old(hid).opens() + opened && #[trigger] outcomes_of::<H>(
            listed,
            channel,
            device_views(devices@),
            outcomes,
            opened,
        );
    assert(switch_report::<H>(listed, channel, device_views(devices@), device_views(failed@), opened));
    failed
}

/// Tries to switch each of `devices` to `channel`, given the interfaces
/// that enumeration found, or its failure, which it passes on. Otherwise
/// returns each device's outcome, in order, as [`switch_each`] does.
pub fn switch_outcomes<H: Hid>(
    hid: &mut H,
    interfaces: Result<Vec<Interface>, IoError>,
    devices: &[Device],
    channel: Channel,
) -> (outcomes: Result<Vec<Result<(), String>>, IoError>)
    ensures
        exists|opened: Opens|
            final(hid).opens() == old(hid).opens() + opened && #[trigger] outcomes_of::<H>(
                interfaces,
                channel,
                device_views(devices@),
                outcomes,
                opened,
            ),
{
    let ghost listed = interfaces;
    match interfaces {
        Err(e) => {
            assert(hid.opens() == old(hid).opens() + Seq::<InterfaceView>::empty());
            let outcomes = Err(e);
            assert(outcomes_of::<H>(
                listed,
                channel,
                device_views(devices@),
                outcomes,
                Seq::<InterfaceView>::empty(),
            ));
            outcomes
        },
        Ok(interfaces) => {
            let each_outcome = switch_each(hid, interfaces.as_slice(), devices, channel);
            let ghost each = choose|each: Seq<Opens>|
                #[trigger] tried_each::<H>(
                    interfaces@,
                    channel,
                    device_views(devices@),
                    each_outcome@,
                    each,
                ) && hid.opens() == old(hid).opens() + each.flatten();
            let outcomes = Ok(each_outcome);
            assert(tried_each::<H>(
                interfaces@,
                channel,
                device_views(devices@),
                outcomes->Ok_0@,
                each,
            ));
            assert(outcomes_of::<H>(listed, channel, device_views(devices@), outcomes, each.flatten()));
            outcomes
        },
    }
}

/// The devices that did not switch, given the outcomes of trying them:
/// all of them when enumeration failed, otherwise [`failed_devices`].
pub fn not_switched_devices(
    devices: &[Device],
    outcomes: &Result<Vec<Result<(), String>>, IoError>,
) -> (failed: Vec<Device>)
    requires
        outcomes matches Ok(each_outcome) ==> each_outcome@.len() == devices@.len(),
    ensures
        device_views(failed@) == not_switched(device_views(devices@), *outcomes),
{
    match outcomes {
        Err(_) => copy_devices(devices),
        Ok(each_outcome) => failed_devices(devices, each_outcome.as_slice()),
    }
}

/// Tries to switch each of `devices` to `channel` in the order given, with
/// [`switch_one`], looked up among `interfaces`. A failure never stops the
/// later devices. Returns each device's outcome, in order: `Ok`, or why it
/// did not switch.
pub fn switch_each<H: Hid>(
    hid: &mut H,
    interfaces: &[Interface],
    devices: &[Device],
    channel: Channel,
) -> (outcomes: Vec<Result<(), String>>)
    ensures
        outcomes@.len() == devices@.len(),
        exists|each: Seq<Opens>|
            #[trigger] tried_each::<H>(interfaces@, channel, device_views(devices@), outcomes@, each)
                && final(hid).opens() == old(hid).opens() + each.flatten(),
{
    let mut outcomes: Vec<Result<(), String>> = Vec::new();
    let mut j: usize = 0;
    let ghost mut each: Seq<Opens> = Seq::empty();
    while j < devices.len()
        invariant
            j <= devices@.len(),
            outcomes@.len() == j,
            tried_each::<H>(
                interfaces@,
                channel,
                device_views(devices@).take(j as int),
                outcomes@,
                each,
            ),
            hid.opens() == old(hid).opens() + each.flatten(),
        decreases devices@.len() - j,
    {
        let ghost before = hid.opens();
        let outcome = switch_one(hid, interfaces, &devices[j], channel);
        let ghost opened = choose|opened: Opens|
            hid.opens() == before + opened && #[trigger] tried::<H>(
                interfaces@,
                devices@[j as int]@,
                channel,
                outcome,
                opened,
            );
        proof {
            broadcast use Seq::lemma_flatten_push;
            assert(hid.opens() =~= old(hid).opens() + each.push(opened).flatten());
            assert(device_views(devices@).take(j + 1) =~= device_views(devices@).take(j as int).push(
                devices@[j as int]@,
            ));
            each = each.push(opened);
        }
        outcomes.push(outcome);
        j = j + 1;
    }
    assert(device_views(devices@).take(j as int) =~= device_views(devices@));
    outcomes
}

/// The devices of `devices` whose outcome failed, in order.
pub fn failed_devices(devices: &[Device], outcomes: &[Result<(), String>]) -> (failed: Vec<Device>)
    requires
        outcomes@.len() == devices@.len(),
    ensures
        device_views(failed@) == failed_of(device_views(devices@), outcomes@),
        exists|at: Seq<int>|
            #[trigger] picks_failures(device_views(devices@), outcomes@, device_views(failed@), at),
{
    let mut failed: Vec<Device> = Vec::new();
    let mut j: usize = 0;
    while j < devices.len()
        invariant
            j <= devices@.len(),
            outcomes@.len() == devices@.len(),
            device_views(failed@) == failed_of(
                device_views(devices@).subrange(0, j as int),
                outcomes@.subrange(0, j as int),
            ),
        decreases devices@.len() - j,
    {
        let ghost before = device_views(failed@);
        proof {
            let dv = device_views(devices@).subrange(0, j + 1);
            let ov = outcomes@.subrange(0, j + 1);
            assert(dv.drop_last() =~= device_views(devices@).subrange(0, j as int));
            assert(ov.drop_last() =~= outcomes@.subrange(0, j as int));
            assert(dv.last() == devices@[j as int]@);
            assert(ov.last() == outcomes@[j as int]);
        }
        if outcomes[j].is_err() {
            failed.push(devices[j].duplicate());
            assert(device_views(failed@) =~= before.push(devices@[j as int]@));
        }
        j = j + 1;
    }
    assert(device_views(devices@).subrange(0, devices@.len() as int) =~= device_views(devices@));
    assert(outcomes@.subrange(0, devices@.len() as int) =~= outcomes@);
    proof {
        lemma_failed_are_the_failures(device_views(devices@), outcomes@);
    }
    failed
}

/// Switches one device, looked up among `interfaces`. Fails with a message
/// when it is not connected, cannot be opened, or does not switch.
fn switch_one<H: Hid>(hid: &mut H, interfaces: &[Interface], device: &Device, channel: Channel) -> (switched:
    Result<(), String>)
    ensures
        exists|opened: Opens|
            final(hid).opens() == old(hid).opens() + opened && #[trigger] tried::<H>(
                interfaces@,
                device@,
                channel,
                switched,
                opened,
            ),
{
    let mut k: usize = 0;
    while k < interfaces.len()
        invariant
            k <= interfaces@.len(),
            forall|j: int| 0 <= j < k ==> !matches_spec(#[trigger] interfaces@[j]@, device@),
        ensures
            k <= interfaces@.len(),
            forall|j: int| 0 <= j < k ==> !matches_spec(#[trigger] interfaces@[j]@, device@),
            k < interfaces@.len() ==> matches_spec(interfaces@[k as int]@, device@),
        decreases interfaces@.len() - k,
    {
        if interfaces[k].matches(device) {
            break;
        }
        k = k + 1;
    }
    if k == interfaces.len() {
        assert(!connected(views(interfaces@), device@)) by {
            assert forall|j: int| 0 <= j < views(interfaces@).len() implies !matches_spec(
                #[trigger] views(interfaces@)[j],
                device@,
            ) by {
                assert(views(interfaces@)[j] == interfaces@[j]@);
            }
        }
        let result = Err("not connected".to_owned());
        assert(hid.opens() == old(hid).opens() + Seq::<InterfaceView>::empty());
        assert(tried::<H>(interfaces@, device@, channel, result, Seq::<InterfaceView>::empty()));
        return result;
    }
    let interface = &interfaces[k];
    assert(views(interfaces@)[k as int] == interface@);
    assert(connected(views(interfaces@), device@));
    assert(match_index(interfaces@, device@, k as int));
    let opened = open_hidpp(hid, interface, interfaces);
    let ghost result = opened;
    let handle = match opened {
        Ok(handle) => handle,
        Err(e) => {
            let mut message = "cannot open: ".to_owned();
            message.append(e.to_string().as_str());
            assert(hidpp_opened::<H>(interfaces@[k as int]@, interfaces@, Err(e)));
            assert(message@ == "cannot open: "@ + e@);
            let result = Err(message);
            assert(tried::<H>(
                interfaces@,
                device@,
                channel,
                result,
                hidpp_opens(interface@, interfaces@, false),
            ));
            return result;
        },
    };
    assert(hidpp_opened::<H>(interfaces@[k as int]@, interfaces@, Ok(handle)));
    let host = channel.host_index();
    assert(host == host_of(channel));
    let changed = hidpp::change_host(&handle, device.device_index, host);
    let ghost changed_to = changed;
    assert(host_changed(handle, device@.device_index, host_of(channel), changed_to));
    let ghost opened = hidpp_opens(interface@, interfaces@, true);
    match changed {
        Ok(unit) => {
            assert(changed_to == Ok::<(), hidpp::Error>(unit) && unit == ());
            let result = Ok(());
            assert(tried::<H>(interfaces@, device@, channel, result, opened));
            result
        },
        Err(e) => {
            let message = e.to_string();
            assert(message@ == hidpp::error_message(&e));
            let result = Err(message);
            assert(tried::<H>(interfaces@, device@, channel, result, opened));
            result
        },
    }
}

} // verus!
