use std::{cell::RefCell, collections::VecDeque, rc::Rc};

use edgehop::config::Device;
use edgehop::discover::{discover, discover_from, report, Entry, DIRECT};
use edgehop::hid::{Bytes, Handle, Hid, Interface, InterfaceView, IoError, Opens, LOGITECH};
use edgehop::hidpp::{Hosts, UNKNOWN_DEVICE};

/// Input reports waiting to be read.
type Queue = Rc<RefCell<VecDeque<Vec<u8>>>>;

/// Answers a written report with the input reports it causes, or fails
/// the write.
type Responder = Rc<dyn Fn(&[u8]) -> Result<Vec<Vec<u8>>, IoError>>;

/// Every report written to any fake handle, with the product id of the
/// device it went to.
type WriteLog = Rc<RefCell<Vec<(u16, Vec<u8>)>>>;

/// A device that never answers.
#[allow(dead_code)]
fn silent() -> Responder {
    Rc::new(|_| Ok(vec![]))
}

/// A device that answers getFeature with ChangeHost at index 0x0A, and
/// nothing else.
#[allow(dead_code)]
fn hidpp_device() -> Responder {
    Rc::new(|request| {
        let mut reply = request.to_vec();
        reply[4] = 0x0A;
        Ok(if request[2] == 0x00 {
            vec![reply]
        } else {
            vec![]
        })
    })
}

/// Logitech devices with the given product ids, connected over Bluetooth.
#[allow(dead_code)]
fn connected(product_ids: &[u16]) -> FakeHid {
    FakeHid {
        devices: product_ids
            .iter()
            .map(|&id| (interface(LOGITECH, id, 0xFF43, 0x0202), hidpp_device()))
            .collect(),
        ..FakeHid::default()
    }
}

/// The (product id, host) of every setCurrentHost written to a
/// [`hidpp_device`].
#[allow(dead_code)]
fn hosts_set(hid: &FakeHid) -> Vec<(u16, u8)> {
    let writes = hid.writes.borrow();
    writes
        .iter()
        .filter(|(_, r)| r[2] == 0x0A)
        .map(|&(id, ref r)| (id, r[4]))
        .collect()
}

fn interface(vendor_id: u16, product_id: u16, usage_page: u16, usage: u16) -> Interface {
    Interface {
        vendor_id,
        product_id,
        usage_page,
        usage,
        product: format!("Device {product_id:04X}"),
        path: format!("{vendor_id:04X}:{product_id:04X}:{usage_page:04X}:{usage:04X}").into_bytes(),
    }
}

fn same_interface(a: &Interface, b: &Interface) -> bool {
    a == b
}

/// Keeps a receiver's short reports apart from its long ones, as Windows
/// does: short reports caused by writes to a receiver's long report
/// interface arrive only on its short report interface.
#[derive(Default)]
struct FakeHid {
    devices: Vec<(Interface, Responder)>,
    writes: WriteLog,
    fail_enumeration: bool,
    /// Interfaces that fail to open.
    fail_open: Vec<Interface>,
    short_reports: Queue,
}

impl Hid for FakeHid {
    type Handle = FakeHandle;

    fn listed(_: Result<Vec<Interface>, IoError>) -> bool {
        true
    }

    fn opened(_: InterfaceView, _: Result<FakeHandle, IoError>) -> bool {
        true
    }

    fn opens(&self) -> Opens {
        Opens::empty()
    }

    fn interfaces(&mut self) -> Result<Vec<Interface>, IoError> {
        if self.fail_enumeration {
            return Err(IoError::other("enumeration failed"));
        }
        Ok(self
            .devices
            .iter()
            .map(|(interface, _)| interface.duplicate())
            .collect())
    }

    fn open(&mut self, interface: &Interface) -> Result<FakeHandle, IoError> {
        if self.fail_open.iter().any(|i| same_interface(i, interface)) {
            return Err(IoError::other("access denied"));
        }
        let (_, respond) = self
            .devices
            .iter()
            .find(|(i, _)| same_interface(i, interface))
            .unwrap();
        let mut handle =
            FakeHandle::new(interface.product_id, respond.clone(), self.writes.clone());
        match (interface.usage_page, interface.usage) {
            (0xFF00, 0x0002) => {
                handle.short_reports = Some(self.short_reports.clone());
            }
            (0xFF00, 0x0001) => handle.pending = self.short_reports.clone(),
            _ => {}
        }
        Ok(handle)
    }
}

struct FakeHandle {
    product_id: u16,
    respond: Responder,
    writes: WriteLog,
    pending: Queue,
    /// Where short reports (id 0x10) go instead of `pending`, if set.
    short_reports: Option<Queue>,
    /// When set, reads never time out but return this report instead.
    noise: Option<Vec<u8>>,
}

impl FakeHandle {
    fn new(product_id: u16, respond: Responder, writes: WriteLog) -> Self {
        Self {
            product_id,
            respond,
            writes,
            pending: Queue::default(),
            short_reports: None,
            noise: None,
        }
    }
}

impl Handle for FakeHandle {
    fn wrote(&self, _: Bytes, _: Result<(), IoError>) -> bool {
        true
    }

    fn gave(&self, _: u64, _: Result<usize, IoError>, _: Bytes) -> bool {
        true
    }

    fn write(&self, report: &[u8]) -> Result<(), IoError> {
        self.writes
            .borrow_mut()
            .push((self.product_id, report.to_vec()));
        for reply in (self.respond)(report)? {
            match &self.short_reports {
                Some(short) if reply[0] == 0x10 => short.borrow_mut().push_back(reply),
                _ => self.pending.borrow_mut().push_back(reply),
            }
        }
        Ok(())
    }

    fn read(&self, buffer: &mut [u8], timeout_us: u64) -> Result<usize, IoError> {
        assert!(timeout_us > 0, "read without time to wait");
        let report = self
            .pending
            .borrow_mut()
            .pop_front()
            .or_else(|| self.noise.clone());
        let Some(report) = report else {
            return Ok(0);
        };
        buffer[..report.len()].copy_from_slice(&report);
        Ok(report.len())
    }
}

const KEYBOARD: u16 = 0xB378;
const BOLT: u16 = 0xC548;
const NAME_INDEX: u8 = 0x03;
const CHANGE_HOST_INDEX: u8 = 0x0A;
const BLUETOOTH: (u16, u16) = (0xFF43, 0x0202);
const RECEIVER: (u16, u16) = (0xFF00, 0x0002);

fn reply(request: &[u8], params: &[u8]) -> Vec<u8> {
    let mut reply = request[..4].to_vec();
    reply.extend_from_slice(params);
    reply.resize(20, 0);
    reply
}

/// Answers for the devices at `slots`, each as (device index, name, host
/// info), and reports every other index as `missing` says: with a HID++ 1.0
/// error code, or `None` for no reply.
fn devices(
    slots: Vec<(u8, &'static str, Option<[u8; 2]>)>,
    missing: fn(u8) -> Option<u8>,
) -> Responder {
    Rc::new(move |request| {
        let (index, feature_index, function, param) =
            (request[1], request[2], request[3], request[4]);
        let Some(&(_, name, hosts)) = slots.iter().find(|(i, ..)| *i == index) else {
            return Ok(missing(index)
                .map(|code| vec![0x10, index, 0x8F, feature_index, function, code, 0])
                .into_iter()
                .collect());
        };
        let params = match (feature_index, function >> 4) {
            (0x00, _) if request[4..6] == [0x00, 0x05] => vec![NAME_INDEX],
            (0x00, _) => vec![hosts.map_or(0, |_| CHANGE_HOST_INDEX)],
            (NAME_INDEX, 0) => vec![u8::try_from(name.len()).unwrap()],
            (NAME_INDEX, _) => name.as_bytes()[usize::from(param)..].to_vec(),
            _ => hosts.unwrap().to_vec(),
        };
        Ok(vec![reply(request, &params)])
    })
}

/// A Bolt receiver's long report interface answering with `responder`,
/// and its short report interface, listed apart as on Windows.
fn bolt(responder: Responder) -> Vec<(Interface, Responder)> {
    vec![
        (interface(LOGITECH, BOLT, 0xFF00, 0x0002), responder),
        (interface(LOGITECH, BOLT, 0xFF00, 0x0001), silent()),
    ]
}

fn hid(devices: Vec<(Interface, Responder)>) -> FakeHid {
    FakeHid {
        devices,
        ..FakeHid::default()
    }
}

fn found(product_id: u16, usage: (u16, u16), index: u8, name: &str) -> Device {
    Device {
        name: name.into(),
        vendor_id: LOGITECH,
        product_id,
        usage_page: usage.0,
        usage: usage.1,
        device_index: index,
    }
}

#[test]
fn asks_bluetooth_devices() {
    let mut hid = hid(vec![
        (
            interface(LOGITECH, KEYBOARD, 0x0001, 0x0006),
            devices(vec![], |_| None),
        ),
        (
            interface(LOGITECH, KEYBOARD, 0xFF43, 0x0202),
            devices(vec![(DIRECT, "MX Keys S", Some([3, 1]))], |_| None),
        ),
        (
            interface(0x05AC, 0x0001, 0xFF43, 0x0202),
            devices(vec![], |_| None),
        ),
    ]);
    assert_eq!(
        discover(&mut hid).unwrap(),
        [Entry::Found {
            device: found(KEYBOARD, BLUETOOTH, DIRECT, "MX Keys S"),
            via: "Bluetooth".into(),
            hosts: Some(Hosts {
                count: 3,
                current: 1
            }),
        }]
    );
}

#[test]
fn asks_every_slot_of_a_receiver() {
    let responder = devices(
        vec![
            (1, "MX Keys S", Some([3, 0])),
            (2, "Lift", None),
            (4, "MX Master 3S", Some([3, 0])),
        ],
        |_| Some(UNKNOWN_DEVICE),
    );
    let mut hid = hid(bolt(responder));
    let hosts = Some(Hosts {
        count: 3,
        current: 0,
    });
    assert_eq!(
        discover(&mut hid).unwrap(),
        [
            Entry::Found {
                device: found(BOLT, RECEIVER, 1, "MX Keys S"),
                via: "Device C548 (0xC548) slot 1".into(),
                hosts,
            },
            Entry::Found {
                device: found(BOLT, RECEIVER, 2, "Lift"),
                via: "Device C548 (0xC548) slot 2".into(),
                hosts: None,
            },
            Entry::Found {
                device: found(BOLT, RECEIVER, 4, "MX Master 3S"),
                via: "Device C548 (0xC548) slot 4".into(),
                hosts,
            },
        ]
    );
}

#[test]
fn groups_the_slots_that_do_not_answer_by_why() {
    let responder = devices(vec![(2, "MX Keys S", Some([3, 0]))], |slot| match slot {
        1 => Some(0x09),
        3 => Some(UNKNOWN_DEVICE),
        4 => Some(UNKNOWN_DEVICE),
        _ => None,
    });
    let mut hid = hid(bolt(responder));
    let entries = discover(&mut hid).unwrap();
    assert_eq!(entries.len(), 3);
    assert_eq!(
        entries[1..],
        [
            Entry::Unreachable {
                what: "Device C548 (0xC548) slot 1".into(),
                reason: "device is not reachable (asleep, out of range, or on another host). \
                         If a device is paired there, press a key on it to wake it, and list \
                         again."
                    .into(),
            },
            Entry::Unreachable {
                what: "Device C548 (0xC548) slots 5, 6".into(),
                reason: "no reply after 3 attempts. If a device is paired there, press a \
                         key on it to wake it, and list again."
                    .into(),
            },
        ]
    );
}

#[test]
fn names_nameless_devices_by_where_they_are() {
    let nameless: Responder = Rc::new(|request| {
        Ok(match request[2] {
            0x00 if request[4..6] == [0x18, 0x14] => vec![reply(request, &[CHANGE_HOST_INDEX])],
            0x00 => vec![reply(request, &[0])],
            _ => vec![reply(request, &[3, 0])],
        })
    });
    let mut hid = hid(vec![
        (
            interface(LOGITECH, KEYBOARD, 0xFF43, 0x0202),
            nameless.clone(),
        ),
        (interface(LOGITECH, BOLT, 0xFF00, 0x0002), nameless),
    ]);
    let hosts = Some(Hosts {
        count: 3,
        current: 0,
    });
    let bluetooth = Entry::Found {
        device: found(KEYBOARD, BLUETOOTH, DIRECT, "Device B378"),
        via: "Bluetooth".into(),
        hosts,
    };
    let slots = (1..=6u8).map(|slot| Entry::Found {
        device: found(BOLT, RECEIVER, slot, &format!("Device in slot {slot}")),
        via: format!("Device C548 (0xC548) slot {slot}"),
        hosts,
    });
    assert_eq!(
        discover(&mut hid).unwrap(),
        std::iter::once(bluetooth).chain(slots).collect::<Vec<_>>()
    );
}

#[test]
fn reports_devices_that_do_not_answer() {
    let mut hid = hid(vec![(
        interface(LOGITECH, KEYBOARD, 0xFF43, 0x0202),
        silent(),
    )]);
    assert_eq!(
        discover(&mut hid).unwrap(),
        [Entry::Unreachable {
            what: "Device B378 (0xB378)".into(),
            reason: "no reply after 3 attempts".into(),
        }]
    );
}

#[test]
fn reports_interfaces_that_cannot_be_opened() {
    let keyboard = interface(LOGITECH, KEYBOARD, 0xFF43, 0x0202);
    let receiver = interface(LOGITECH, BOLT, 0xFF00, 0x0002);
    let mut hid = FakeHid {
        fail_open: vec![keyboard.duplicate(), receiver.duplicate()],
        ..hid(vec![(keyboard, silent()), (receiver, silent())])
    };
    assert_eq!(
        discover(&mut hid).unwrap(),
        [
            Entry::Unreachable {
                what: "Device B378 (0xB378)".into(),
                reason: "cannot open: access denied".into(),
            },
            Entry::Unreachable {
                what: "Device C548 (0xC548)".into(),
                reason: "cannot open: access denied".into(),
            },
        ]
    );
}

#[test]
fn discover_fails_when_enumeration_fails() {
    let mut hid = FakeHid {
        fail_enumeration: true,
        ..FakeHid::default()
    };
    assert!(discover(&mut hid).is_err());
}

#[test]
fn reports_in_config_syntax() {
    let hosts = Some(Hosts {
        count: 3,
        current: 1,
    });
    let entries = [
        Entry::Found {
            device: found(BOLT, RECEIVER, 1, r#"MX "Keys" S"#),
            via: "USB Receiver (0xC548) slot 1".into(),
            hosts,
        },
        Entry::Found {
            device: found(BOLT, RECEIVER, 2, "Lift"),
            via: "USB Receiver (0xC548) slot 2".into(),
            hosts: None,
        },
        Entry::Found {
            device: found(KEYBOARD, BLUETOOTH, DIRECT, "MX Keys S"),
            via: "Bluetooth".into(),
            hosts,
        },
        Entry::Unreachable {
            what: "USB Receiver (0xC548) slots 3, 4".into(),
            reason: "no reply.".into(),
        },
    ];
    let report = report(&entries);
    assert_eq!(
        report,
        r#"# MX "Keys" S via USB Receiver (0xC548) slot 1, on Easy-Switch channel 2 of 3
[[devices]]
name = 'MX "Keys" S'
vendor_id = 0x046D
product_id = 0xC548
usage_page = 0xFF00
usage = 0x0002
device_index = 0x01

# Lift via USB Receiver (0xC548) slot 2 cannot switch: it has no Easy-Switch.

# MX Keys S via Bluetooth, on Easy-Switch channel 2 of 3
[[devices]]
name = "MX Keys S"
vendor_id = 0x046D
product_id = 0xB378
usage_page = 0xFF43
usage = 0x0202
device_index = 0xFF

# USB Receiver (0xC548) slots 3, 4: no reply.
"#
    );
    let config: toml::Table = toml::from_str(&report).unwrap();
    let listed: Vec<Device> = config["devices"]
        .as_array()
        .unwrap()
        .iter()
        .map(|entry| Device {
            name: entry["name"].as_str().unwrap().into(),
            vendor_id: entry["vendor_id"].as_integer().unwrap() as u16,
            product_id: entry["product_id"].as_integer().unwrap() as u16,
            usage_page: entry["usage_page"].as_integer().unwrap() as u16,
            usage: entry["usage"].as_integer().unwrap() as u16,
            device_index: entry["device_index"].as_integer().unwrap() as u8,
        })
        .collect();
    assert_eq!(
        listed,
        [
            found(BOLT, RECEIVER, 1, r#"MX "Keys" S"#),
            found(KEYBOARD, BLUETOOTH, DIRECT, "MX Keys S"),
        ]
    );
}

#[test]
fn reports_when_nothing_was_found() {
    assert_eq!(report(&[]), "# No Logitech HID++ devices found.\n");
}

#[test]
fn reports_an_unreachable_device_on_one_line() {
    let entry = Entry::Unreachable {
        what: "Device B378 (0xB378)".into(),
        reason: "no reply after 3 attempts".into(),
    };
    assert_eq!(
        entry.to_string(),
        "# Device B378 (0xB378): no reply after 3 attempts\n"
    );
}

#[test]
fn fails_as_enumeration_did() {
    let mut hid = FakeHid::default();
    let error = discover_from(&mut hid, Err(IoError::other("enumeration failed"))).unwrap_err();
    assert_eq!(error.to_string(), "enumeration failed");
    assert_eq!(discover_from(&mut hid, Ok(vec![])).unwrap(), []);
}
