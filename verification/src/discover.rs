//! Finding the connected devices for `edgehop --list`, by asking each one over
//! HID++ for its name and Easy-Switch hosts. This is what makes devices behind
//! a receiver findable at all: the operating system only sees the receiver.

use vstd::prelude::*;

use crate::config::{Device, DeviceView};
use crate::hid::{
    hidpp_opened, listed_from, logitech_interfaces, open_hidpp, Handle, Hid, Interface,
    InterfaceView, IoError, Joined, LOGITECH, LONG_REPORTS, RECEIVER_USAGE_PAGE,
};
use crate::hidpp::{self, error_message, hosts_trace, name_trace, CallView, Exchange, Hosts, UNKNOWN_DEVICE};
use crate::text::{decimal, hex16, hex8, push_decimal, push_hex16, push_hex8};

verus! {

/// The HID++ interface of a device connected over Bluetooth.
pub const BLUETOOTH_USAGE_PAGE: u16 = 0xFF43;
pub const BLUETOOTH_USAGE: u16 = 0x0202;
/// The slots of a Logi Bolt or Unifying receiver.
pub const FIRST_SLOT: u8 = 1;
pub const LAST_SLOT: u8 = 6;
/// The device index of a device connected directly.
pub const DIRECT: u8 = 0xFF;

/// What `edgehop --list` found.
#[derive(Debug, PartialEq)]
pub enum Entry {
    /// A device that answered, with its hosts if it can switch.
    Found {
        device: Device,
        /// How it is connected.
        via: String,
        hosts: Option<Hosts>,
    },
    /// A device, or a receiver's slots, that could not be asked.
    Unreachable { what: String, reason: String },
}

/// An entry as plain values.
pub enum EntryView {
    Found { device: DeviceView, via: Seq<char>, hosts: Option<Hosts> },
    Unreachable { what: Seq<char>, reason: Seq<char> },
}

impl View for Entry {
    type V = EntryView;

    open spec fn view(&self) -> EntryView {
        match self {
            Entry::Found { device, via, hosts } => EntryView::Found {
                device: device@,
                via: via@,
                hosts: *hosts,
            },
            Entry::Unreachable { what, reason } => EntryView::Unreachable {
                what: what@,
                reason: reason@,
            },
        }
    }
}

/// How TOML writes `s` as a string value (`toml::Value::String`'s display):
/// quoted and escaped so that it reads back as `s`.
pub uninterp spec fn toml_string_literal(s: Seq<char>) -> Seq<char>;

/// `s` as a TOML string value.
#[verifier::external_body]
fn toml_string(s: &str) -> (literal: String)
    ensures
        literal@ == toml_string_literal(s@),
{
    toml::Value::String(s.to_owned()).to_string()
}

/// How an interface is named in the list: its product and product id.
pub open spec fn describe_spec(i: InterfaceView) -> Seq<char> {
    i.product + " ("@ + hex16(i.product_id) + ")"@
}

/// The lines `edgehop --list` prints for an entry: a comment, and for a
/// device that can switch, a config entry for it.
pub open spec fn entry_text(e: EntryView) -> Seq<char> {
    match e {
        EntryView::Found { device, via, hosts: Some(hosts) } => "# "@ + device.name + " via "@
            + via + ", on Easy-Switch channel "@ + decimal((hosts.current + 1) as nat) + " of "@
            + decimal(hosts.count as nat) + "\n[[devices]]\nname = "@ + toml_string_literal(
            device.name,
        ) + "\nvendor_id = "@ + hex16(device.vendor_id) + "\nproduct_id = "@ + hex16(
            device.product_id,
        ) + "\nusage_page = "@ + hex16(device.usage_page) + "\nusage = "@ + hex16(device.usage)
            + "\ndevice_index = "@ + hex8(device.device_index) + "\n"@,
        EntryView::Found { device, via, hosts: None } => "# "@ + device.name + " via "@ + via
            + " cannot switch: it has no Easy-Switch.\n"@,
        EntryView::Unreachable { what, reason } => "# "@ + what + ": "@ + reason + "\n"@,
    }
}

/// `texts` joined with `sep` between each two.
pub open spec fn joined(texts: Seq<Seq<char>>, sep: Seq<char>) -> Seq<char>
    decreases texts.len(),
{
    if texts.len() == 0 {
        seq![]
    } else if texts.len() == 1 {
        texts[0]
    } else {
        joined(texts.drop_last(), sep) + sep + texts.last()
    }
}

/// What `edgehop --list` prints for `entries`.
pub open spec fn report_text(entries: Seq<EntryView>) -> Seq<char> {
    if entries.len() == 0 {
        "# No Logitech HID++ devices found.\n"@
    } else {
        joined(entries.map_values(|e: EntryView| entry_text(e)), "\n"@)
    }
}

/// The views of `entries`.
pub open spec fn entry_views(entries: Seq<Entry>) -> Seq<EntryView> {
    entries.map_values(|e: Entry| e@)
}

/// The entries as `edgehop --list` prints them: valid TOML, so that the
/// devices can be pasted into the config as they are.
pub fn report(entries: &[Entry]) -> (text: String)
    ensures
        text@ == report_text(entry_views(entries@)),
{
    if entries.len() == 0 {
        return "# No Logitech HID++ devices found.\n".to_owned();
    }
    let ghost texts = entry_views(entries@).map_values(|e: EntryView| entry_text(e));
    let mut text = entries[0].to_string();
    assert(texts.subrange(0, 1) =~= seq![texts[0]]);
    let mut k: usize = 1;
    while k < entries.len()
        invariant
            1 <= k <= entries@.len(),
            texts == entry_views(entries@).map_values(|e: EntryView| entry_text(e)),
            text@ == joined(texts.subrange(0, k as int), "\n"@),
        decreases entries@.len() - k,
    {
        text.append("\n");
        let more = entries[k].to_string();
        text.append(more.as_str());
        assert(texts.subrange(0, k + 1).drop_last() =~= texts.subrange(0, k as int));
        k = k + 1;
    }
    assert(texts.subrange(0, entries@.len() as int) =~= texts);
    text
}

impl Entry {
    /// The lines `edgehop --list` prints for this entry.
    pub fn to_string(&self) -> (text: String)
        ensures
            text@ == entry_text(self@),
    {
        match self {
            Entry::Found { device, via, hosts: Some(hosts) } => {
                let mut text = "# ".to_owned();
                text.append(device.name.as_str());
                text.append(" via ");
                text.append(via.as_str());
                text.append(", on Easy-Switch channel ");
                push_decimal(&mut text, hosts.current as u64 + 1);
                text.append(" of ");
                push_decimal(&mut text, hosts.count as u64);
                text.append("\n[[devices]]\nname = ");
                let name = toml_string(device.name.as_str());
                text.append(name.as_str());
                text.append("\nvendor_id = ");
                push_hex16(&mut text, device.vendor_id);
                text.append("\nproduct_id = ");
                push_hex16(&mut text, device.product_id);
                text.append("\nusage_page = ");
                push_hex16(&mut text, device.usage_page);
                text.append("\nusage = ");
                push_hex16(&mut text, device.usage);
                text.append("\ndevice_index = ");
                push_hex8(&mut text, device.device_index);
                text.append("\n");
                text
            },
            Entry::Found { device, via, hosts: None } => {
                let mut text = "# ".to_owned();
                text.append(device.name.as_str());
                text.append(" via ");
                text.append(via.as_str());
                text.append(" cannot switch: it has no Easy-Switch.\n");
                text
            },
            Entry::Unreachable { what, reason } => {
                let mut text = "# ".to_owned();
                text.append(what.as_str());
                text.append(": ");
                text.append(reason.as_str());
                text.append("\n");
                text
            },
        }
    }
}

/// A device's answers: its name, if it tells it, and its hosts, if it can
/// switch.
pub type Answers = (Option<String>, Option<Hosts>);

/// The config entry for the device at `device_index` behind `interface`.
pub open spec fn device_spec(i: InterfaceView, device_index: u8, name: Seq<char>) -> DeviceView {
    DeviceView {
        name,
        vendor_id: i.vendor_id,
        product_id: i.product_id,
        usage_page: i.usage_page,
        usage: i.usage,
        device_index,
    }
}

/// What `edgehop --list` shows for a device connected over Bluetooth behind
/// `i`, given its answers or why it could not be asked. A device that does
/// not tell its name is named by its product.
pub open spec fn bluetooth_spec(i: InterfaceView, asked: Result<Answers, String>) -> EntryView {
    match asked {
        Ok((name, hosts)) => EntryView::Found {
            device: device_spec(
                i,
                DIRECT,
                match name {
                    Some(n) => n@,
                    None => i.product,
                },
            ),
            via: "Bluetooth"@,
            hosts,
        },
        Err(reason) => EntryView::Unreachable { what: describe_spec(i), reason: reason@ },
    }
}

/// The entry for the device in `slot` of the receiver behind `i` that gave
/// `answers`. A device that does not tell its name is named by its slot.
pub open spec fn slot_spec(i: InterfaceView, slot: u8, answers: Answers) -> EntryView {
    EntryView::Found {
        device: device_spec(
            i,
            slot,
            match answers.0 {
                Some(n) => n@,
                None => "Device in slot "@ + decimal(slot as nat),
            },
        ),
        via: describe_spec(i) + " slot "@ + decimal(slot as nat),
        hosts: answers.1,
    }
}

/// Whether an error means that nothing is paired in a slot, which the list
/// leaves out.
pub open spec fn is_empty_slot(e: hidpp::Error) -> bool {
    e matches hidpp::Error::Receiver(code) && code == UNKNOWN_DEVICE
}

/// The entries for the slots that answered, given the outcomes of asking
/// slots 1, 2, ... in turn.
pub open spec fn found_in_slots(i: InterfaceView, outcomes: Seq<Result<Answers, hidpp::Error>>) -> Seq<
    EntryView,
>
    decreases outcomes.len(),
{
    if outcomes.len() == 0 {
        seq![]
    } else {
        let before = found_in_slots(i, outcomes.drop_last());
        match outcomes.last() {
            Ok(answers) => before.push(slot_spec(i, outcomes.len() as u8, answers)),
            Err(_) => before,
        }
    }
}

/// Where `reason` is among `groups`, if it is.
pub open spec fn group_of(groups: Seq<(Seq<char>, Seq<u8>)>, reason: Seq<char>) -> Option<int>
    decreases groups.len(),
{
    if groups.len() == 0 {
        None
    } else if groups.last().0 == reason {
        Some(groups.len() - 1)
    } else {
        group_of(groups.drop_last(), reason)
    }
}

/// The slots that failed, grouped by the message of their error, each group
/// where its message first came up, given the outcomes of asking slots 1,
/// 2, ... in turn. Empty slots are left out.
pub open spec fn failure_groups(outcomes: Seq<Result<Answers, hidpp::Error>>) -> Seq<
    (Seq<char>, Seq<u8>),
>
    decreases outcomes.len(),
{
    if outcomes.len() == 0 {
        seq![]
    } else {
        let groups = failure_groups(outcomes.drop_last());
        let slot = outcomes.len() as u8;
        match outcomes.last() {
            Err(e) => if is_empty_slot(e) {
                groups
            } else {
                let reason = error_message(&e);
                match group_of(groups, reason) {
                    Some(g) => groups.update(g, (reason, groups[g].1.push(slot))),
                    None => groups.push((reason, seq![slot])),
                }
            },
            Ok(_) => groups,
        }
    }
}

/// The slot numbers in decimal, joined by `, `.
pub open spec fn slot_list(slots: Seq<u8>) -> Seq<char> {
    joined(slots.map_values(|slot: u8| decimal(slot as nat)), ", "@)
}

/// The entry for slots of the receiver behind `i` that failed for the same
/// reason.
pub open spec fn group_spec(i: InterfaceView, group: (Seq<char>, Seq<u8>)) -> EntryView {
    EntryView::Unreachable {
        what: describe_spec(i) + (if group.1.len() == 1 {
            " slot "@
        } else {
            " slots "@
        }) + slot_list(group.1),
        reason: group.0
            + ". If a device is paired there, press a key on it to wake it, and list again."@,
    }
}

/// What `edgehop --list` shows for the receiver behind `i`, given the
/// outcomes of asking its slots 1, 2, ... in turn: the devices that
/// answered, then the slots that did not, grouped by why.
pub open spec fn receiver_spec(i: InterfaceView, outcomes: Seq<Result<Answers, hidpp::Error>>) -> Seq<
    EntryView,
> {
    found_in_slots(i, outcomes) + failure_groups(outcomes).map_values(
        |g: (Seq<char>, Seq<u8>)| group_spec(i, g),
    )
}

/// How an interface is named in the list: its product and product id.
fn describe(interface: &Interface) -> (text: String)
    ensures
        text@ == describe_spec(interface@),
{
    let mut text = interface.product.clone();
    text.append(" (");
    push_hex16(&mut text, interface.product_id);
    text.append(")");
    text
}

/// The config entry for the device at `device_index` behind `interface`.
fn device(interface: &Interface, device_index: u8, name: String) -> (device: Device)
    ensures
        device@ == device_spec(interface@, device_index, name@),
{
    Device {
        name,
        vendor_id: interface.vendor_id,
        product_id: interface.product_id,
        usage_page: interface.usage_page,
        usage: interface.usage,
        device_index,
    }
}

/// The entry for a device connected over Bluetooth behind `interface`,
/// given its answers or why it could not be asked.
pub fn bluetooth_entry(interface: &Interface, asked: Result<Answers, String>) -> (entry: Entry)
    ensures
        entry@ == bluetooth_spec(interface@, asked),
{
    match asked {
        Ok((name, hosts)) => {
            let name = match name {
                Some(name) => name,
                None => interface.product.clone(),
            };
            Entry::Found { device: device(interface, DIRECT, name), via: "Bluetooth".to_owned(), hosts }
        },
        Err(reason) => Entry::Unreachable { what: describe(interface), reason },
    }
}

/// `slots` in decimal, joined by `, `.
fn push_slot_list(text: &mut String, slots: &Vec<u8>)
    ensures
        final(text)@ == old(text)@ + slot_list(slots@),
{
    let ghost texts = slots@.map_values(|slot: u8| decimal(slot as nat));
    let mut k: usize = 0;
    while k < slots.len()
        invariant
            k <= slots@.len(),
            texts == slots@.map_values(|slot: u8| decimal(slot as nat)),
            text@ == old(text)@ + joined(texts.subrange(0, k as int), ", "@),
        decreases slots@.len() - k,
    {
        if k > 0 {
            text.append(", ");
        }
        push_decimal(text, slots[k] as u64);
        proof {
            let prefix = texts.subrange(0, k + 1);
            assert(prefix.drop_last() =~= texts.subrange(0, k as int));
            if k == 0 {
                assert(prefix =~= seq![texts[0]]);
                assert(old(text)@ + joined(texts.subrange(0, 0), ", "@) =~= old(text)@);
            }
        }
        k = k + 1;
    }
    assert(texts.subrange(0, slots@.len() as int) =~= texts);
}

/// The entries for the receiver behind `interface`, given the outcomes of
/// asking its slots 1, 2, ... in turn.
pub fn receiver_entries(interface: &Interface, outcomes: Vec<Result<Answers, hidpp::Error>>) -> (entries:
    Vec<Entry>)
    requires
        outcomes@.len() <= 255,
    ensures
        entry_views(entries@) == receiver_spec(interface@, outcomes@),
{
    let ghost all = outcomes@;
    let mut entries: Vec<Entry> = Vec::new();
    let mut groups: Vec<(String, Vec<u8>)> = Vec::new();
    let mut slot: u8 = 0;
    let mut rest = outcomes;
    while rest.len() > 0
        invariant
            slot as int + rest@.len() == all.len(),
            rest@ == all.subrange(slot as int, all.len() as int),
            all.len() <= 255,
            entry_views(entries@) == found_in_slots(interface@, all.subrange(0, slot as int)),
            group_views(groups@) == failure_groups(all.subrange(0, slot as int)),
        decreases rest@.len(),
    {
        let outcome = rest.remove(0);
        let ghost prefix = all.subrange(0, slot as int);
        proof {
            assert(all[slot as int] == outcome);
            assert(all.subrange(0, slot + 1).drop_last() =~= prefix);
            assert(all.subrange(0, slot + 1).last() == outcome);
            assert(rest@ =~= all.subrange(slot + 1, all.len() as int));
        }
        slot = slot + 1;
        match outcome {
            Ok(answers) => {
                let entry = slot_entry(interface, slot, answers);
                let ghost before = entries@;
                entries.push(entry);
                assert(entry_views(entries@) =~= entry_views(before).push(entry@));
            },
            Err(e) => {
                let empty = match e {
                    hidpp::Error::Receiver(code) => code == UNKNOWN_DEVICE,
                    _ => false,
                };
                if !empty {
                    let reason = e.to_string();
                    add_failure(&mut groups, reason, slot);
                }
            },
        }
    }
    assert(all.subrange(0, all.len() as int) =~= all);
    let mut k: usize = 0;
    let ghost found = entry_views(entries@);
    let ghost gs = group_views(groups@);
    while k < groups.len()
        invariant
            k <= groups@.len(),
            gs == group_views(groups@),
            entry_views(entries@) =~= found + gs.subrange(0, k as int).map_values(
                |g: (Seq<char>, Seq<u8>)| group_spec(interface@, g),
            ),
        decreases groups@.len() - k,
    {
        let entry = group_entry(interface, &groups[k]);
        let ghost before = entries@;
        entries.push(entry);
        proof {
            assert(entry_views(entries@) =~= entry_views(before).push(entry@));
            assert(gs.subrange(0, k + 1) =~= gs.subrange(0, k as int).push(gs[k as int]));
        }
        k = k + 1;
    }
    assert(gs.subrange(0, gs.len() as int) =~= gs);
    entries
}

/// The views of failure groups.
pub open spec fn group_views(groups: Seq<(String, Vec<u8>)>) -> Seq<(Seq<char>, Seq<u8>)> {
    groups.map_values(|g: (String, Vec<u8>)| (g.0@, g.1@))
}

/// The entry for the device in `slot` that gave `answers`.
fn slot_entry(interface: &Interface, slot: u8, answers: Answers) -> (entry: Entry)
    ensures
        entry@ == slot_spec(interface@, slot, answers),
{
    let (name, hosts) = answers;
    let name = match name {
        Some(name) => name,
        None => {
            let mut name = "Device in slot ".to_owned();
            push_decimal(&mut name, slot as u64);
            name
        },
    };
    let mut via = describe(interface);
    via.append(" slot ");
    push_decimal(&mut via, slot as u64);
    Entry::Found { device: device(interface, slot, name), via, hosts }
}

/// Adds `slot`, failed for `reason`, to the group for `reason`.
fn add_failure(groups: &mut Vec<(String, Vec<u8>)>, reason: String, slot: u8)
    ensures
        group_views(final(groups)@) == match group_of(group_views(old(groups)@), reason@) {
            Some(g) => group_views(old(groups)@).update(
                g,
                (reason@, group_views(old(groups)@)[g].1.push(slot)),
            ),
            None => group_views(old(groups)@).push((reason@, seq![slot])),
        },
{
    let ghost gv = group_views(groups@);
    let mut k = groups.len();
    assert(gv.subrange(0, k as int) =~= gv);
    while k > 0
        invariant
            k <= groups@.len(),
            gv == group_views(groups@),
            groups@ == old(groups)@,
            group_of(gv, reason@) == group_of(gv.subrange(0, k as int), reason@),
        decreases k,
    {
        proof {
            assert(gv.subrange(0, k as int).drop_last() =~= gv.subrange(0, k - 1));
        }
        if groups[k - 1].0 == reason {
            let ghost g = (k - 1) as int;
            let mut slots = groups[k - 1].1.clone();
            slots.push(slot);
            let entry = (reason, slots);
            groups.set(k - 1, entry);
            assert(group_views(groups@) =~= gv.update(g, (entry.0@, gv[g].1.push(slot))));
            return;
        }
        k = k - 1;
    }
    assert(gv.subrange(0, 0) =~= Seq::<(Seq<char>, Seq<u8>)>::empty());
    let mut slots = Vec::new();
    slots.push(slot);
    groups.push((reason, slots));
    assert(group_views(groups@) =~= gv.push((reason@, seq![slot])));
}

/// The entry for the slots of one failure group.
fn group_entry(interface: &Interface, group: &(String, Vec<u8>)) -> (entry: Entry)
    ensures
        entry@ == group_spec(interface@, (group.0@, group.1@)),
{
    let mut what = describe(interface);
    if group.1.len() == 1 {
        what.append(" slot ");
    } else {
        what.append(" slots ");
    }
    push_slot_list(&mut what, &group.1);
    let mut reason = group.0.clone();
    reason.append(". If a device is paired there, press a key on it to wake it, and list again.");
    Entry::Unreachable { what, reason }
}

/// Whether an entry names a device by its HID++ interface, as the config
/// needs it: a Logitech device connected directly over Bluetooth, or one in
/// a slot of a Logi Bolt or Unifying receiver.
pub open spec fn lists_hidpp_device(entry: EntryView) -> bool {
    entry matches EntryView::Found { device, .. } ==> {
        &&& device.vendor_id == LOGITECH
        &&& {
            ||| device.usage_page == BLUETOOTH_USAGE_PAGE && device.usage == BLUETOOTH_USAGE
                && device.device_index == DIRECT
            ||| device.usage_page == RECEIVER_USAGE_PAGE && device.usage == LONG_REPORTS
                && FIRST_SLOT <= device.device_index <= LAST_SLOT
        }
    }
}

/// Whether the device at `device_index` behind `handle` was asked for its
/// name and hosts and `answers` is what that came to: the name as
/// [`hidpp::device_name`] tells it and the hosts as [`hidpp::hosts`] tells
/// them, or the error of either.
pub open spec fn asked_at<T: Handle>(handle: T, device_index: u8, answers: Result<Answers, hidpp::Error>) -> bool {
    match answers {
        Ok((name, hosts)) => (exists|
            lookup: Seq<Exchange>,
            found: Result<u8, hidpp::Error>,
            length_call: CallView,
            parts: Seq<CallView>,
        |
            #[trigger] name_trace(
                handle,
                device_index,
                lookup,
                found,
                length_call,
                parts,
                Ok::<Option<String>, hidpp::Error>(name),
            )) && (exists|lookup: Seq<Exchange>, found: Result<u8, hidpp::Error>, info: Seq<Exchange>|
            #[trigger] hosts_trace(
                handle,
                device_index,
                lookup,
                found,
                info,
                Ok::<Option<Hosts>, hidpp::Error>(hosts),
            )),
        Err(e) => !(e is Unsupported) && ((exists|
            lookup: Seq<Exchange>,
            found: Result<u8, hidpp::Error>,
            length_call: CallView,
            parts: Seq<CallView>,
        |
            #[trigger] name_trace(
                handle,
                device_index,
                lookup,
                found,
                length_call,
                parts,
                Err::<Option<String>, hidpp::Error>(e),
            )) || (exists|lookup: Seq<Exchange>, found: Result<u8, hidpp::Error>, info: Seq<Exchange>|
            #[trigger] hosts_trace(
                handle,
                device_index,
                lookup,
                found,
                info,
                Err::<Option<Hosts>, hidpp::Error>(e),
            ))),
    }
}

/// Whether asking the device connected over Bluetooth behind `i` can come
/// to `asked`: `i` is opened, and where it opens, the device is asked at the
/// index of a direct connection; the reason for a failure is that it could
/// not be opened, or what asking it failed with.
pub open spec fn bluetooth_asked<H: Hid>(i: InterfaceView, asked: Result<Answers, String>) -> bool {
    ||| exists|e: IoError|
        #[trigger] H::opened(i, Err(e)) && (asked matches Err(reason) && reason@ == "cannot open: "@
            + e@)
    ||| exists|h: H::Handle|
        #[trigger] H::opened(i, Ok(h)) && match asked {
            Ok(a) => asked_at(h, DIRECT, Ok(a)),
            Err(reason) => exists|e: hidpp::Error|
                #[trigger] asked_at(h, DIRECT, Err(e)) && reason@ == error_message(&e),
        }
}

/// Whether `entries` is what `edgehop --list` can show for the interface
/// `i`, listed among `interfaces`, as the platform answered: one entry for
/// a device connected over Bluetooth, asked as [`bluetooth_asked`] says; for
/// a receiver, opened with its short report interface, the entries for its
/// slots, slot `s` asked at index `s` of the joined handle, or one entry
/// saying that it could not be opened; nothing for any other interface.
pub open spec fn interface_entries<H: Hid>(
    i: InterfaceView,
    interfaces: Seq<Interface>,
    entries: Seq<EntryView>,
) -> bool {
    if i.usage_page == BLUETOOTH_USAGE_PAGE && i.usage == BLUETOOTH_USAGE {
        exists|asked: Result<Answers, String>|
            bluetooth_asked::<H>(i, asked) && entries == seq![#[trigger] bluetooth_spec(i, asked)]
    } else if i.usage_page == RECEIVER_USAGE_PAGE && i.usage == LONG_REPORTS {
        ||| exists|e: IoError|
            #[trigger] hidpp_opened::<H>(i, interfaces, Err(e)) && entries == seq![
                EntryView::Unreachable { what: describe_spec(i), reason: "cannot open: "@ + e@ },
            ]
        ||| exists|j: Joined<H::Handle>, outcomes: Seq<Result<Answers, hidpp::Error>>|
            #[trigger] hidpp_opened::<H>(i, interfaces, Ok(j)) && outcomes.len() == LAST_SLOT
                && (forall|k: int|
                0 <= k < LAST_SLOT ==> asked_at(j, (k + 1) as u8, #[trigger] outcomes[k]))
                && entries == #[trigger] receiver_spec(i, outcomes)
    } else {
        entries.len() == 0
    }
}

/// Whether `entries` is what `edgehop --list` can show for the interfaces
/// `listed`, in their order: `parts[k]` for `listed[k]`.
pub open spec fn discovered<H: Hid>(
    listed: Seq<Interface>,
    parts: Seq<Seq<EntryView>>,
    entries: Seq<EntryView>,
) -> bool {
    &&& parts.len() == listed.len()
    &&& forall|k: int|
        0 <= k < listed.len() ==> interface_entries::<H>((#[trigger] listed[k])@, listed, parts[k])
    &&& entries == parts.flatten()
}

/// Asks every connected Logitech device for its name and hosts: the
/// Logitech interfaces among those the platform enumerated, sorted, each
/// asked in turn; or the enumeration's error.
pub fn discover<H: Hid>(hid: &mut H) -> (entries: Result<Vec<Entry>, IoError>)
    ensures
        exists|enumerated: Result<Vec<Interface>, IoError>, listed: Result<Vec<Interface>, IoError>|
            #[trigger] H::listed(enumerated) && listed_from(enumerated, listed) && #[trigger] found_from::<H>(
                listed,
                entries,
            ),
        entries matches Ok(list) ==> forall|k: int|
            0 <= k < list@.len() ==> lists_hidpp_device(#[trigger] list@[k]@),
{
    let listed = logitech_interfaces(hid);
    let ghost interfaces = listed;
    let entries = discover_from(hid, listed);
    proof {
        let enumerated = choose|enumerated: Result<Vec<Interface>, IoError>|
            #[trigger] H::listed(enumerated) && listed_from(enumerated, interfaces);
        assert(H::listed(enumerated) && listed_from(enumerated, interfaces) && found_from::<H>(
            interfaces,
            entries,
        ));
    }
    entries
}

/// Whether `entries` is what asking the devices behind `listed` can come
/// to: the entries for each interface in order, or the error of the
/// enumeration that gave `listed`.
pub open spec fn found_from<H: Hid>(
    listed: Result<Vec<Interface>, IoError>,
    entries: Result<Vec<Entry>, IoError>,
) -> bool {
    match listed {
        Err(e) => entries matches Err(f) && f@ == e@,
        Ok(interfaces) => entries matches Ok(list) && exists|parts: Seq<Seq<EntryView>>|
            #[trigger] discovered::<H>(interfaces@, parts, entry_views(list@)),
    }
}

/// Asks the device behind each of `listed` (the Logitech interfaces that
/// enumeration found, in order) for its name and hosts, or fails as the
/// enumeration did.
pub fn discover_from<H: Hid>(hid: &mut H, listed: Result<Vec<Interface>, IoError>) -> (entries:
    Result<Vec<Entry>, IoError>)
    ensures
        found_from::<H>(listed, entries),
        listed matches Ok(interfaces) && (forall|k: int|
            0 <= k < interfaces@.len() ==> (#[trigger] interfaces@[k]).vendor_id == LOGITECH)
            ==> (entries matches Ok(list) && forall|k: int|
            0 <= k < list@.len() ==> lists_hidpp_device(#[trigger] list@[k]@)),
{
    let interfaces = match listed {
        Ok(interfaces) => interfaces,
        Err(e) => return Err(e),
    };
    let ghost all = interfaces@;
    let ghost logitech = forall|i: int|
        0 <= i < interfaces@.len() ==> (#[trigger] interfaces@[i]).vendor_id == LOGITECH;
    let ghost mut parts: Seq<Seq<EntryView>> = Seq::empty();
    let mut entries: Vec<Entry> = Vec::new();
    assert(entry_views(entries@) =~= parts.flatten());
    let mut k: usize = 0;
    while k < interfaces.len()
        invariant
            k <= interfaces@.len(),
            all == interfaces@,
            logitech == forall|i: int|
                0 <= i < interfaces@.len() ==> (#[trigger] interfaces@[i]).vendor_id == LOGITECH,
            logitech ==> forall|j: int|
                0 <= j < entries@.len() ==> lists_hidpp_device(#[trigger] entries@[j]@),
            parts.len() == k,
            forall|j: int|
                0 <= j < k ==> interface_entries::<H>((#[trigger] all[j])@, all, parts[j]),
            entry_views(entries@) == parts.flatten(),
        decreases interfaces@.len() - k,
    {
        let interface = &interfaces[k];
        let ghost before = entry_views(entries@);
        let ghost old_parts = parts;
        if interface.usage_page == BLUETOOTH_USAGE_PAGE && interface.usage == BLUETOOTH_USAGE {
            let entry = bluetooth(hid, interface);
            entries.push(entry);
            proof {
                assert(entry_views(entries@) =~= before + seq![entry@]);
                parts = parts.push(seq![entry@]);
            }
        } else if interface.usage_page == RECEIVER_USAGE_PAGE && interface.usage == LONG_REPORTS {
            let mut more = receiver(hid, interface, interfaces.as_slice());
            let ghost added = entry_views(more@);
            entries.append(&mut more);
            proof {
                assert(entry_views(entries@) =~= before + added);
                parts = parts.push(added);
            }
        } else {
            proof {
                assert(entry_views(entries@) =~= before + Seq::<EntryView>::empty());
                parts = parts.push(Seq::<EntryView>::empty());
            }
        }
        proof {
            broadcast use Seq::lemma_flatten_push;

            assert(parts.drop_last() == old_parts);
            assert(interface_entries::<H>(all[k as int]@, all, parts[k as int]));
            assert forall|j: int| 0 <= j < k + 1 implies interface_entries::<H>(
                (#[trigger] all[j])@,
                all,
                parts[j],
            ) by {
                if j < k {
                    assert(parts[j] == old_parts[j]);
                }
            }
        }
        k = k + 1;
    }
    assert(discovered::<H>(all, parts, entry_views(entries@)));
    let result: Result<Vec<Entry>, IoError> = Ok(entries);
    assert(result matches Ok(list) && list@ == entries@);
    result
}

/// Asks the device connected over Bluetooth behind `interface`.
fn bluetooth<H: Hid>(hid: &mut H, interface: &Interface) -> (entry: Entry)
    requires
        interface.usage_page == BLUETOOTH_USAGE_PAGE,
        interface.usage == BLUETOOTH_USAGE,
    ensures
        exists|asked: Result<Answers, String>|
            bluetooth_asked::<H>(interface@, asked) && entry@ == #[trigger] bluetooth_spec(
                interface@,
                asked,
            ),
        interface.vendor_id == LOGITECH ==> lists_hidpp_device(entry@),
{
    let opened = hid.open(interface);
    let ghost result = opened;
    let asked = match opened {
        Err(e) => {
            let mut reason = "cannot open: ".to_owned();
            reason.append(e.to_string().as_str());
            let asked = Err(reason);
            assert(H::opened(interface@, Err(e)));
            assert(bluetooth_asked::<H>(interface@, asked));
            asked
        },
        Ok(handle) => {
            assert(H::opened(interface@, Ok(handle)));
            match ask(&handle, DIRECT) {
                Ok(answers) => {
                    let asked = Ok(answers);
                    assert(bluetooth_asked::<H>(interface@, asked));
                    asked
                },
                Err(e) => {
                    let reason = e.to_string();
                    assert(asked_at(handle, DIRECT, Err(e)) && reason@ == error_message(&e));
                    let asked = Err(reason);
                    assert(bluetooth_asked::<H>(interface@, asked));
                    asked
                },
            }
        },
    };
    let ghost chosen = asked;
    let entry = bluetooth_entry(interface, asked);
    assert(bluetooth_asked::<H>(interface@, chosen) && entry@ == bluetooth_spec(interface@, chosen));
    entry
}

/// Asks every slot of the receiver behind `interface`, opened with its
/// short report interface among `interfaces`.
fn receiver<H: Hid>(hid: &mut H, interface: &Interface, interfaces: &[Interface]) -> (entries: Vec<
    Entry,
>)
    requires
        interface.usage_page == RECEIVER_USAGE_PAGE,
        interface.usage == LONG_REPORTS,
    ensures
        interface.vendor_id == LOGITECH ==> forall|j: int|
            0 <= j < entries@.len() ==> lists_hidpp_device(#[trigger] entries@[j]@),
        interface_entries::<H>(interface@, interfaces@, entry_views(entries@)),
{
    let opened = open_hidpp(hid, interface, interfaces);
    let ghost result = opened;
    let handle = match opened {
        Ok(handle) => handle,
        Err(e) => {
            let mut reason = "cannot open: ".to_owned();
            reason.append(e.to_string().as_str());
            let mut entries = Vec::new();
            let entry = Entry::Unreachable { what: describe(interface), reason };
            entries.push(entry);
            assert(entry_views(entries@) =~= seq![entry@]);
            assert(hidpp_opened::<H>(interface@, interfaces@, Err(e)));
            return entries;
        },
    };
    assert(hidpp_opened::<H>(interface@, interfaces@, Ok(handle)));
    let mut outcomes: Vec<Result<Answers, hidpp::Error>> = Vec::new();
    let mut slot: u8 = FIRST_SLOT;
    while slot <= LAST_SLOT
        invariant
            FIRST_SLOT <= slot <= LAST_SLOT + 1,
            outcomes@.len() == slot - FIRST_SLOT,
            forall|k: int|
                0 <= k < outcomes@.len() ==> asked_at(handle, (k + 1) as u8, #[trigger] outcomes@[k]),
        decreases LAST_SLOT + 1 - slot,
    {
        let answers = ask(&handle, slot);
        let ghost before = outcomes@;
        outcomes.push(answers);
        assert(outcomes@[before.len() as int] == answers);
        assert(forall|k: int| 0 <= k < before.len() ==> outcomes@[k] == before[k]);
        slot = slot + 1;
    }
    let ghost asked = outcomes@;
    let entries = receiver_entries(interface, outcomes);
    proof {
        if interface.vendor_id == LOGITECH {
            lemma_receiver_entries_list_devices(interface@, asked);
            assert forall|j: int| 0 <= j < entries@.len() implies lists_hidpp_device(
                #[trigger] entries@[j]@,
            ) by {
                assert(entry_views(entries@)[j] == entries@[j]@);
            }
        }
        assert(entry_views(entries@) == receiver_spec(interface@, asked));
    }
    entries
}

/// Every entry for a receiver's slots names a device in one of its slots.
proof fn lemma_receiver_entries_list_devices(
    i: InterfaceView,
    outcomes: Seq<Result<Answers, hidpp::Error>>,
)
    requires
        i.vendor_id == LOGITECH,
        i.usage_page == RECEIVER_USAGE_PAGE,
        i.usage == LONG_REPORTS,
        outcomes.len() <= LAST_SLOT,
    ensures
        forall|j: int|
            0 <= j < receiver_spec(i, outcomes).len() ==> lists_hidpp_device(
                #[trigger] receiver_spec(i, outcomes)[j],
            ),
    decreases outcomes.len(),
{
    lemma_found_in_slots(i, outcomes);
    let found = found_in_slots(i, outcomes);
    let groups = failure_groups(outcomes).map_values(|g: (Seq<char>, Seq<u8>)| group_spec(i, g));
    assert forall|j: int|
        0 <= j < receiver_spec(i, outcomes).len() implies lists_hidpp_device(
        #[trigger] receiver_spec(i, outcomes)[j],
    ) by {
        if j < found.len() {
            assert(receiver_spec(i, outcomes)[j] == found[j]);
        } else {
            assert(receiver_spec(i, outcomes)[j] == groups[j - found.len()]);
        }
    }
}

/// The devices found in slots are in slots 1 to the number of outcomes.
proof fn lemma_found_in_slots(i: InterfaceView, outcomes: Seq<Result<Answers, hidpp::Error>>)
    requires
        i.vendor_id == LOGITECH,
        i.usage_page == RECEIVER_USAGE_PAGE,
        i.usage == LONG_REPORTS,
        outcomes.len() <= LAST_SLOT,
    ensures
        forall|j: int|
            0 <= j < found_in_slots(i, outcomes).len() ==> lists_hidpp_device(
                #[trigger] found_in_slots(i, outcomes)[j],
            ),
    decreases outcomes.len(),
{
    if outcomes.len() > 0 {
        lemma_found_in_slots(i, outcomes.drop_last());
        let before = found_in_slots(i, outcomes.drop_last());
        if let Ok(answers) = outcomes.last() {
            let slot = outcomes.len() as u8;
            assert(found_in_slots(i, outcomes) == before.push(slot_spec(i, slot, answers)));
            assert(lists_hidpp_device(slot_spec(i, slot, answers)));
            assert forall|j: int|
                0 <= j < found_in_slots(i, outcomes).len() implies lists_hidpp_device(
                #[trigger] found_in_slots(i, outcomes)[j],
            ) by {
                if j < before.len() {
                    assert(found_in_slots(i, outcomes)[j] == before[j]);
                }
            }
        }
    }
}

/// Asks the device at `device_index` behind `handle` for its name and hosts.
fn ask<H: Handle>(handle: &H, device_index: u8) -> (answers: Result<Answers, hidpp::Error>)
    ensures
        answers matches Err(e) ==> !(e is Unsupported),
        asked_at(*handle, device_index, answers),
{
    let name = hidpp::device_name(handle, device_index);
    let ghost told = name;
    let name = match name {
        Ok(name) => name,
        Err(e) => return Err(e),
    };
    let hosts = hidpp::hosts(handle, device_index);
    let ghost counted = hosts;
    let hosts = match hosts {
        Ok(hosts) => hosts,
        Err(e) => return Err(e),
    };
    assert(told == Ok::<Option<String>, hidpp::Error>(name));
    assert(counted == Ok::<Option<Hosts>, hidpp::Error>(hosts));
    Ok((name, hosts))
}

} // verus!
