use std::{cell::RefCell, collections::VecDeque, rc::Rc, time::Instant};

use edgehop::config::Device;
use edgehop::hid::{
    after_slice, join_opened, logitech_interfaces, logitech_listed, read_slice, Bytes, Handle, Hid,
    Interface, InterfaceView, IoError, Joined, Opens, LOGITECH, READ_SLICE_US,
};

/// Input reports waiting to be read.
type Queue = Rc<RefCell<VecDeque<Vec<u8>>>>;

/// Answers a written report with the input reports it causes, or fails
/// the write.
type Responder = Rc<dyn Fn(&[u8]) -> Result<Vec<Vec<u8>>, IoError>>;

/// Every report written to any fake handle, with the product id of the
/// device it went to.
type WriteLog = Rc<RefCell<Vec<(u16, Vec<u8>)>>>;

/// A device that never answers.
#[allow(dead_code)]
fn silent() -> Responder {
    Rc::new(|_| Ok(vec![]))
}

/// A device that answers getFeature with ChangeHost at index 0x0A, and
/// nothing else.
#[allow(dead_code)]
fn hidpp_device() -> Responder {
    Rc::new(|request| {
        let mut reply = request.to_vec();
        reply[4] = 0x0A;
        Ok(if request[2] == 0x00 {
            vec![reply]
        } else {
            vec![]
        })
    })
}

/// Logitech devices with the given product ids, connected over Bluetooth.
#[allow(dead_code)]
fn connected(product_ids: &[u16]) -> FakeHid {
    FakeHid {
        devices: product_ids
            .iter()
            .map(|&id| (interface(LOGITECH, id, 0xFF43, 0x0202), hidpp_device()))
            .collect(),
        ..FakeHid::default()
    }
}

/// The (product id, host) of every setCurrentHost written to a
/// [`hidpp_device`].
#[allow(dead_code)]
fn hosts_set(hid: &FakeHid) -> Vec<(u16, u8)> {
    let writes = hid.writes.borrow();
    writes
        .iter()
        .filter(|(_, r)| r[2] == 0x0A)
        .map(|&(id, ref r)| (id, r[4]))
        .collect()
}

fn interface(vendor_id: u16, product_id: u16, usage_page: u16, usage: u16) -> Interface {
    Interface {
        vendor_id,
        product_id,
        usage_page,
        usage,
        product: format!("Device {product_id:04X}"),
        path: format!("{vendor_id:04X}:{product_id:04X}:{usage_page:04X}:{usage:04X}").into_bytes(),
    }
}

fn same_interface(a: &Interface, b: &Interface) -> bool {
    a == b
}

/// Keeps a receiver's short reports apart from its long ones, as Windows
/// does: short reports caused by writes to a receiver's long report
/// interface arrive only on its short report interface.
#[derive(Default)]
struct FakeHid {
    devices: Vec<(Interface, Responder)>,
    writes: WriteLog,
    fail_enumeration: bool,
    /// Interfaces that fail to open.
    fail_open: Vec<Interface>,
    short_reports: Queue,
}

impl Hid for FakeHid {
    type Handle = FakeHandle;

    fn listed(_: Result<Vec<Interface>, IoError>) -> bool {
        true
    }

    fn opened(_: InterfaceView, _: Result<FakeHandle, IoError>) -> bool {
        true
    }

    fn opens(&self) -> Opens {
        Opens::empty()
    }

    fn interfaces(&mut self) -> Result<Vec<Interface>, IoError> {
        if self.fail_enumeration {
            return Err(IoError::other("enumeration failed"));
        }
        Ok(self
            .devices
            .iter()
            .map(|(interface, _)| interface.duplicate())
            .collect())
    }

    fn open(&mut self, interface: &Interface) -> Result<FakeHandle, IoError> {
        if self.fail_open.iter().any(|i| same_interface(i, interface)) {
            return Err(IoError::other("access denied"));
        }
        let (_, respond) = self
            .devices
            .iter()
            .find(|(i, _)| same_interface(i, interface))
            .unwrap();
        let mut handle =
            FakeHandle::new(interface.product_id, respond.clone(), self.writes.clone());
        match (interface.usage_page, interface.usage) {
            (0xFF00, 0x0002) => {
                handle.short_reports = Some(self.short_reports.clone());
            }
            (0xFF00, 0x0001) => handle.pending = self.short_reports.clone(),
            _ => {}
        }
        Ok(handle)
    }
}

struct FakeHandle {
    product_id: u16,
    respond: Responder,
    writes: WriteLog,
    pending: Queue,
    /// Where short reports (id 0x10) go instead of `pending`, if set.
    short_reports: Option<Queue>,
    /// When set, reads never time out but return this report instead.
    noise: Option<Vec<u8>>,
}

impl FakeHandle {
    fn new(product_id: u16, respond: Responder, writes: WriteLog) -> Self {
        Self {
            product_id,
            respond,
            writes,
            pending: Queue::default(),
            short_reports: None,
            noise: None,
        }
    }
}

impl Handle for FakeHandle {
    fn wrote(&self, _: Bytes, _: Result<(), IoError>) -> bool {
        true
    }

    fn gave(&self, _: u64, _: Result<usize, IoError>, _: Bytes) -> bool {
        true
    }

    fn write(&self, report: &[u8]) -> Result<(), IoError> {
        self.writes
            .borrow_mut()
            .push((self.product_id, report.to_vec()));
        for reply in (self.respond)(report)? {
            match &self.short_reports {
                Some(short) if reply[0] == 0x10 => short.borrow_mut().push_back(reply),
                _ => self.pending.borrow_mut().push_back(reply),
            }
        }
        Ok(())
    }

    fn read(&self, buffer: &mut [u8], timeout_us: u64) -> Result<usize, IoError> {
        assert!(timeout_us > 0, "read without time to wait");
        let report = self
            .pending
            .borrow_mut()
            .pop_front()
            .or_else(|| self.noise.clone());
        let Some(report) = report else {
            return Ok(0);
        };
        buffer[..report.len()].copy_from_slice(&report);
        Ok(report.len())
    }
}

fn device(usage_page: u16, usage: u16) -> Device {
    Device {
        name: "MX Keys S".into(),
        vendor_id: LOGITECH,
        product_id: 0xB378,
        usage_page,
        usage,
        device_index: 0xFF,
    }
}

#[test]
fn matches_on_ids_and_usage() {
    let interface = interface(LOGITECH, 0xB378, 0xFF43, 0x0202);
    assert!(interface.matches(&device(0xFF43, 0x0202)));
    assert!(!interface.matches(&device(0xFF43, 0x0001)));
    assert!(!interface.matches(&device(0x0001, 0x0202)));
    assert!(!interface.matches(&Device {
        product_id: 0xB034,
        ..device(0xFF43, 0x0202)
    }));
    assert!(!interface.matches(&Device {
        vendor_id: 0x1234,
        ..device(0xFF43, 0x0202)
    }));
}

#[test]
fn displays_config_ready_values() {
    assert_eq!(
        interface(LOGITECH, 0xB378, 0xFF43, 0x0202).to_string(),
        "vendor_id = 0x046D  product_id = 0xB378  usage_page = 0xFF43  usage = 0x0202  Device B378"
    );
}

#[test]
fn lists_logitech_interfaces_in_order() {
    let listed = [
        interface(LOGITECH, 0xB378, 0xFF43, 0x0202),
        interface(0x05AC, 0x0001, 0x0001, 0x0006),
        interface(LOGITECH, 0xB034, 0xFF43, 0x0202),
        interface(LOGITECH, 0xB378, 0x0001, 0x0006),
    ];
    let mut hid = FakeHid {
        devices: listed.iter().map(|i| (i.duplicate(), silent())).collect(),
        ..FakeHid::default()
    };
    assert_eq!(
        logitech_interfaces(&mut hid).unwrap(),
        [listed[2].duplicate(), listed[3].duplicate(), listed[0].duplicate()]
    );
}

#[test]
fn keeps_the_listed_order_of_equal_interfaces() {
    let first = Interface {
        path: b"first".to_vec(),
        ..interface(LOGITECH, 0xC548, 0xFF00, 0x0002)
    };
    let second = Interface {
        path: b"second".to_vec(),
        ..interface(LOGITECH, 0xC548, 0xFF00, 0x0002)
    };
    let mut hid = FakeHid {
        devices: vec![
            (interface(LOGITECH, 0xC548, 0xFF00, 0x0003), silent()),
            (first.duplicate(), silent()),
            (interface(LOGITECH, 0xC547, 0xFF00, 0x0002), silent()),
            (second.duplicate(), silent()),
        ],
        ..FakeHid::default()
    };
    let listed = logitech_interfaces(&mut hid).unwrap();
    assert_eq!(listed[0].product_id, 0xC547);
    assert_eq!(listed[1], first);
    assert_eq!(listed[2], second);
    assert_eq!(listed[3].usage, 0x0003);
}

#[test]
fn fails_listing_when_enumeration_fails() {
    let mut hid = FakeHid {
        fail_enumeration: true,
        ..FakeHid::default()
    };
    assert!(logitech_interfaces(&mut hid).is_err());
}

fn receiver(usage: u16, path: &str) -> Interface {
    Interface {
        path: path.as_bytes().to_vec(),
        ..interface(LOGITECH, 0xC548, 0xFF00, usage)
    }
}

#[test]
fn finds_the_short_reports_of_a_receiver() {
    let long = receiver(0x0002, "col02");
    let short = receiver(0x0001, "col01");
    let interfaces = [
        interface(LOGITECH, 0xC547, 0xFF00, 0x0001),
        interface(LOGITECH, 0xC548, 0xFF01, 0x0001),
        interface(0x1234, 0xC548, 0xFF00, 0x0001),
        long.duplicate(),
        short.duplicate(),
    ];
    assert_eq!(long.short_reports(&interfaces), Some(&short));
}

#[test]
fn needs_no_short_reports_on_the_same_path() {
    let long = receiver(0x0002, "receiver");
    let interfaces = [long.duplicate(), receiver(0x0001, "receiver")];
    assert_eq!(long.short_reports(&interfaces), None);
}

#[test]
fn has_short_reports_only_for_a_receivers_long_reports() {
    let interfaces = [receiver(0x0001, "col01")];
    assert_eq!(receiver(0x0003, "col03").short_reports(&interfaces), None);
    let bluetooth = Interface {
        usage_page: 0xFF43,
        ..receiver(0x0002, "bt")
    };
    assert_eq!(bluetooth.short_reports(&interfaces), None);
}

/// A handle that has `reports` waiting, and logs writes to `writes`.
fn waiting(reports: &[&[u8]], writes: &WriteLog) -> FakeHandle {
    let handle = FakeHandle::new(0xC548, silent(), writes.clone());
    handle
        .pending
        .borrow_mut()
        .extend(reports.iter().map(|r| r.to_vec()));
    handle
}

fn read(handle: &impl Handle, timeout_us: u64) -> Vec<u8> {
    let mut buffer = [0; 20];
    let len = handle.read(&mut buffer, timeout_us).unwrap();
    buffer[..len].to_vec()
}

#[test]
fn joined_handles_read_from_both_and_write_to_the_first() {
    let main = WriteLog::default();
    let extra = WriteLog::default();
    let joined = Joined::new(
        waiting(&[&[0x11, 1]], &main),
        Some(waiting(&[&[0x10, 2], &[0x10, 3]], &extra)),
    );
    let timeout = 50_000;
    assert_eq!(read(&joined, timeout), [0x11, 1]);
    assert_eq!(read(&joined, timeout), [0x10, 2]);
    assert_eq!(read(&joined, timeout), [0x10, 3]);
    let start = Instant::now();
    assert_eq!(read(&joined, timeout), []);
    assert!(start.elapsed().as_micros() >= timeout as u128);
    joined.write(&[0x11, 4]).unwrap();
    assert_eq!(main.take(), [(0xC548, vec![0x11, 4])]);
    assert!(extra.take().is_empty());
}

#[test]
fn joined_handles_read_from_the_first_alone() {
    let joined = Joined::new(waiting(&[&[0x11, 1]], &WriteLog::default()), None);
    assert_eq!(read(&joined, 50_000), [0x11, 1]);
    assert_eq!(read(&joined, 50_000), []);
}

#[test]
fn joined_handles_fail_when_a_read_fails() {
    struct Failing;
    impl Handle for Failing {
        fn wrote(&self, _: Bytes, _: Result<(), IoError>) -> bool {
            true
        }

        fn gave(&self, _: u64, _: Result<usize, IoError>, _: Bytes) -> bool {
            true
        }

        fn write(&self, _: &[u8]) -> Result<(), IoError> {
            Ok(())
        }
        fn read(&self, _: &mut [u8], _: u64) -> Result<usize, IoError> {
            Err(IoError::other("gone"))
        }
    }
    let joined = Joined::new(Failing, Some(Failing));
    joined.write(&[]).unwrap();
    let mut buffer = [0; 20];
    let error = joined.read(&mut buffer, 50_000).unwrap_err();
    assert_eq!(error.to_string(), "gone");
}

#[test]
fn writes_to_a_device_that_answers() {
    let mut hid = connected(&[0xB378]);
    let interfaces = hid.interfaces().unwrap();
    let handle = hid.open(&interfaces[0]).unwrap();
    handle.write(&[0x11, 0xFF, 0x00, 0x0A, 0x18, 0x14]).unwrap();
    assert_eq!(read(&handle, 1_000)[4], 0x0A);
    assert!(hosts_set(&hid).is_empty());
}

#[test]
fn lists_what_enumeration_found() {
    let found = vec![
        interface(0x05AC, 0x0001, 0x0001, 0x0006),
        interface(LOGITECH, 0xB378, 0xFF43, 0x0202),
        interface(LOGITECH, 0xB034, 0xFF43, 0x0202),
    ];
    let listed = logitech_listed(Ok(found)).unwrap();
    assert_eq!(
        listed,
        [
            interface(LOGITECH, 0xB034, 0xFF43, 0x0202),
            interface(LOGITECH, 0xB378, 0xFF43, 0x0202),
        ]
    );
    let error = logitech_listed(Err(IoError::other("enumeration failed"))).unwrap_err();
    assert_eq!(error.to_string(), "enumeration failed");
}

#[test]
fn joins_what_was_opened() {
    let log = WriteLog::default();
    let failed = join_opened::<FakeHandle>(Err(IoError::other("access denied")), None);
    assert_eq!(failed.err().unwrap().to_string(), "access denied");
    let joined = join_opened(
        Ok(waiting(&[&[0x11, 1]], &log)),
        Some(Err(IoError::other("access denied"))),
    )
    .ok()
    .unwrap();
    assert_eq!(read(&joined, 50_000), [0x11, 1]);
    assert_eq!(read(&joined, 50_000), []);
    let joined = join_opened(
        Ok(waiting(&[], &log)),
        Some(Ok(waiting(&[&[0x10, 2]], &log))),
    )
    .ok()
    .unwrap();
    assert_eq!(read(&joined, 50_000), [0x10, 2]);
}

#[test]
fn joined_handles_read_nothing_in_no_time() {
    let log = WriteLog::default();
    let joined = Joined::new(waiting(&[&[0x11, 1]], &log), Some(waiting(&[], &log)));
    assert_eq!(read(&joined, 0), []);
}

#[test]
fn reads_in_slices_of_the_time_left() {
    assert_eq!(read_slice(0, 50_000), Some(READ_SLICE_US));
    assert_eq!(read_slice(48_000, 50_000), Some(2_000));
    assert_eq!(read_slice(50_000, 50_000), None);
    assert!(after_slice(Ok(0)).is_none());
    assert_eq!(after_slice(Ok(3)), Some(Ok(3)));
    assert_eq!(
        after_slice(Err(IoError::other("gone"))),
        Some(Err(IoError::other("gone")))
    );
}
