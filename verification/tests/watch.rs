use std::{
    cell::{Cell, RefCell},
    collections::VecDeque,
    rc::Rc,
};

use edgehop::config::{Channel, Config, Device, Edges};
use edgehop::desktop::{Desktop, Point};
use edgehop::hid::{Bytes, Handle, Hid, Interface, InterfaceView, IoError, Opens, LOGITECH};
use edgehop::watch::{
    retry_step, Pending, RetryStep, WatchEvent, Watcher, POLL_INTERVAL_MS, RETRY_FOR_MS,
    RETRY_INTERVAL_MS,
};

/// Displays as rectangles `(left, top, width, height)`.
struct FakeDesktop {
    cursor: Cell<Option<Point>>,
    displays: Vec<(i32, i32, i32, i32)>,
}

impl FakeDesktop {
    fn new(displays: &[(i32, i32, i32, i32)]) -> Self {
        Self {
            cursor: Cell::new(None),
            displays: displays.to_vec(),
        }
    }

    fn move_to(&self, x: i32, y: i32) {
        self.cursor.set(Some(Point { x, y }));
    }
}

impl Desktop for FakeDesktop {
    fn shows(&self, point: Point) -> bool {
        self.contains(point)
    }

    fn cursor(&self) -> Option<Point> {
        self.cursor.get()
    }

    fn contains(&self, Point { x, y }: Point) -> bool {
        self.displays.iter().any(|&(left, top, width, height)| {
            (left..left + width).contains(&x) && (top..top + height).contains(&y)
        })
    }
}

fn channel(number: u8) -> Channel {
    Channel::new(number).unwrap()
}

/// A config with a dwell time of 100 ms and the given edges.
fn watcher(edges: Edges) -> Result<Watcher, String> {
    let config = Config {
        dwell: 100,
        cooldown: 2000,
        edges,
        devices: vec![Device {
            name: "MX Master 3S".into(),
            vendor_id: 0x046D,
            product_id: 0xB034,
            usage_page: 0xFF43,
            usage: 0x0202,
            device_index: 0xFF,
        }],
    };
    Watcher::new(&config)
}

const START: u64 = 1_000;

#[test]
fn switches_to_the_channel_of_the_edge() {
    let mut watcher = watcher(Edges {
        left: Some(channel(1)),
        right: Some(channel(3)),
        ..Edges::default()
    })
    .unwrap();
    let desktop = FakeDesktop::new(&[(0, 0, 1920, 1080)]);
    desktop.move_to(1919, 500);
    assert_eq!(watcher.poll(&desktop, START), None);
    let channel = watcher.poll(&desktop, START + 100);
    assert_eq!(channel, Some(Channel::new(3).unwrap()));
}

#[test]
fn ignores_edges_without_a_channel() {
    let mut watcher = watcher(Edges {
        right: Some(channel(1)),
        ..Edges::default()
    })
    .unwrap();
    let desktop = FakeDesktop::new(&[(0, 0, 1920, 1080)]);
    desktop.move_to(0, 0);
    assert_eq!(watcher.poll(&desktop, START), None);
    assert_eq!(watcher.poll(&desktop, START + 1000), None);
}

#[test]
fn waits_while_the_cursor_is_unknown() {
    let mut watcher = watcher(Edges {
        right: Some(channel(1)),
        ..Edges::default()
    })
    .unwrap();
    let desktop = FakeDesktop::new(&[(0, 0, 1920, 1080)]);
    assert_eq!(watcher.poll(&desktop, START), None);
}

#[test]
fn needs_an_edge_with_a_channel() {
    let error = watcher(Edges::default()).err().unwrap();
    assert_eq!(error.to_string(), "no edge has a channel in [edges]");
}

#[test]
fn samples_every_twenty_milliseconds() {
    assert_eq!(POLL_INTERVAL_MS, 20);
}

#[test]
fn keeps_the_dwell_going_across_samples() {
    let mut watcher = watcher(Edges {
        bottom: Some(channel(2)),
        ..Edges::default()
    })
    .unwrap();
    let desktop = FakeDesktop::new(&[(0, 0, 1920, 1080)]);
    desktop.move_to(500, 1079);
    let mut now = START;
    let mut fired = None;
    while fired.is_none() && now < START + 1000 {
        fired = watcher.sample(&desktop, desktop.cursor(), now);
        now += POLL_INTERVAL_MS;
    }
    assert_eq!(fired, Some(channel(2)));
    assert_eq!(now, START + 120);
    assert_eq!(watcher.sample(&desktop, None, now), None);
}

/// Input reports waiting to be read.
type Queue = Rc<RefCell<VecDeque<Vec<u8>>>>;

/// Answers a written report with the input reports it causes, or fails
/// the write.
type Responder = Rc<dyn Fn(&[u8]) -> Result<Vec<Vec<u8>>, IoError>>;

/// Every report written to any fake handle, with the product id of the
/// device it went to.
type WriteLog = Rc<RefCell<Vec<(u16, Vec<u8>)>>>;

/// A device that never answers.
#[allow(dead_code)]
fn silent() -> Responder {
    Rc::new(|_| Ok(vec![]))
}

/// A device that answers getFeature with ChangeHost at index 0x0A, and
/// nothing else.
#[allow(dead_code)]
fn hidpp_device() -> Responder {
    Rc::new(|request| {
        let mut reply = request.to_vec();
        reply[4] = 0x0A;
        Ok(if request[2] == 0x00 {
            vec![reply]
        } else {
            vec![]
        })
    })
}

/// Logitech devices with the given product ids, connected over Bluetooth.
#[allow(dead_code)]
fn connected(product_ids: &[u16]) -> FakeHid {
    FakeHid {
        devices: product_ids
            .iter()
            .map(|&id| (interface(LOGITECH, id, 0xFF43, 0x0202), hidpp_device()))
            .collect(),
        ..FakeHid::default()
    }
}

/// The (product id, host) of every setCurrentHost written to a
/// [`hidpp_device`].
#[allow(dead_code)]
fn hosts_set(hid: &FakeHid) -> Vec<(u16, u8)> {
    let writes = hid.writes.borrow();
    writes
        .iter()
        .filter(|(_, r)| r[2] == 0x0A)
        .map(|&(id, ref r)| (id, r[4]))
        .collect()
}

fn interface(vendor_id: u16, product_id: u16, usage_page: u16, usage: u16) -> Interface {
    Interface {
        vendor_id,
        product_id,
        usage_page,
        usage,
        product: format!("Device {product_id:04X}"),
        path: format!("{vendor_id:04X}:{product_id:04X}:{usage_page:04X}:{usage:04X}").into_bytes(),
    }
}

fn same_interface(a: &Interface, b: &Interface) -> bool {
    a == b
}

/// Keeps a receiver's short reports apart from its long ones, as Windows
/// does: short reports caused by writes to a receiver's long report
/// interface arrive only on its short report interface.
#[derive(Default)]
struct FakeHid {
    devices: Vec<(Interface, Responder)>,
    writes: WriteLog,
    fail_enumeration: bool,
    /// Interfaces that fail to open.
    fail_open: Vec<Interface>,
    short_reports: Queue,
}

impl Hid for FakeHid {
    type Handle = FakeHandle;

    fn listed(_: Result<Vec<Interface>, IoError>) -> bool {
        true
    }

    fn opened(_: InterfaceView, _: Result<FakeHandle, IoError>) -> bool {
        true
    }

    fn opens(&self) -> Opens {
        Opens::empty()
    }

    fn interfaces(&mut self) -> Result<Vec<Interface>, IoError> {
        if self.fail_enumeration {
            return Err(IoError::other("enumeration failed"));
        }
        Ok(self
            .devices
            .iter()
            .map(|(interface, _)| interface.duplicate())
            .collect())
    }

    fn open(&mut self, interface: &Interface) -> Result<FakeHandle, IoError> {
        if self.fail_open.iter().any(|i| same_interface(i, interface)) {
            return Err(IoError::other("access denied"));
        }
        let (_, respond) = self
            .devices
            .iter()
            .find(|(i, _)| same_interface(i, interface))
            .unwrap();
        let mut handle =
            FakeHandle::new(interface.product_id, respond.clone(), self.writes.clone());
        match (interface.usage_page, interface.usage) {
            (0xFF00, 0x0002) => {
                handle.short_reports = Some(self.short_reports.clone());
            }
            (0xFF00, 0x0001) => handle.pending = self.short_reports.clone(),
            _ => {}
        }
        Ok(handle)
    }
}

struct FakeHandle {
    product_id: u16,
    respond: Responder,
    writes: WriteLog,
    pending: Queue,
    /// Where short reports (id 0x10) go instead of `pending`, if set.
    short_reports: Option<Queue>,
    /// When set, reads never time out but return this report instead.
    noise: Option<Vec<u8>>,
}

impl FakeHandle {
    fn new(product_id: u16, respond: Responder, writes: WriteLog) -> Self {
        Self {
            product_id,
            respond,
            writes,
            pending: Queue::default(),
            short_reports: None,
            noise: None,
        }
    }
}

impl Handle for FakeHandle {
    fn wrote(&self, _: Bytes, _: Result<(), IoError>) -> bool {
        true
    }

    fn gave(&self, _: u64, _: Result<usize, IoError>, _: Bytes) -> bool {
        true
    }

    fn write(&self, report: &[u8]) -> Result<(), IoError> {
        self.writes
            .borrow_mut()
            .push((self.product_id, report.to_vec()));
        for reply in (self.respond)(report)? {
            match &self.short_reports {
                Some(short) if reply[0] == 0x10 => short.borrow_mut().push_back(reply),
                _ => self.pending.borrow_mut().push_back(reply),
            }
        }
        Ok(())
    }

    fn read(&self, buffer: &mut [u8], timeout_us: u64) -> Result<usize, IoError> {
        assert!(timeout_us > 0, "read without time to wait");
        let report = self
            .pending
            .borrow_mut()
            .pop_front()
            .or_else(|| self.noise.clone());
        let Some(report) = report else {
            return Ok(0);
        };
        buffer[..report.len()].copy_from_slice(&report);
        Ok(report.len())
    }
}

const MOUSE: u16 = 0xB034;
const KEYBOARD: u16 = 0xB378;

fn device(product_id: u16) -> Device {
    Device {
        name: format!("{product_id:04X}"),
        vendor_id: LOGITECH,
        product_id,
        usage_page: 0xFF43,
        usage: 0x0202,
        device_index: 0xFF,
    }
}

fn names(devices: &[Device]) -> Vec<&str> {
    devices.iter().map(|device| device.name.as_str()).collect()
}

/// A watcher for the keyboard and the mouse, switching to channel 2 at the
/// right edge after 100 ms.
fn keyboard_and_mouse_watcher() -> Watcher {
    Watcher::new(&Config {
        dwell: 100,
        cooldown: 2000,
        edges: Edges {
            right: Some(channel(2)),
            ..Edges::default()
        },
        devices: vec![device(KEYBOARD), device(MOUSE)],
    })
    .unwrap()
}

/// Rests the cursor at the right edge until the watcher switches.
fn rest_at_the_right_edge(
    watcher: &mut Watcher,
    desktop: &FakeDesktop,
    hid: &mut FakeHid,
) -> WatchEvent {
    desktop.move_to(1919, 500);
    assert!(matches!(watcher.tick(desktop, hid, START), WatchEvent::Idle));
    watcher.tick(desktop, hid, START + 100)
}

#[test]
fn tick_switches_every_device() {
    let mut watcher = keyboard_and_mouse_watcher();
    let desktop = FakeDesktop::new(&[(0, 0, 1920, 1080)]);
    let mut hid = connected(&[MOUSE, KEYBOARD]);
    match rest_at_the_right_edge(&mut watcher, &desktop, &mut hid) {
        WatchEvent::Switched {
            channel: ch,
            failed,
            outcomes,
        } => {
            assert_eq!(ch, channel(2));
            assert!(failed.is_empty());
            assert_eq!(outcomes, Ok(vec![Ok(()), Ok(())]));
        }
        _ => panic!("expected a switch"),
    }
    assert_eq!(hosts_set(&hid), [(KEYBOARD, 1), (MOUSE, 1)]);
    let later = START + 100 + RETRY_INTERVAL_MS;
    assert!(matches!(watcher.tick(&desktop, &mut hid, later), WatchEvent::Idle));
    assert_eq!(hosts_set(&hid).len(), 2);
}

#[test]
fn tick_retries_devices_left_behind() {
    let mut watcher = keyboard_and_mouse_watcher();
    let desktop = FakeDesktop::new(&[(0, 0, 1920, 1080)]);
    let mut hid = connected(&[MOUSE]);
    match rest_at_the_right_edge(&mut watcher, &desktop, &mut hid) {
        WatchEvent::Switched {
            failed, outcomes, ..
        } => {
            assert_eq!(names(&failed), ["B378"]);
            assert_eq!(outcomes, Ok(vec![Err("not connected".to_string()), Ok(())]));
        }
        _ => panic!("expected a switch"),
    }
    let switched_at = START + 100;
    // Not due yet.
    let event = watcher.tick(&desktop, &mut hid, switched_at + RETRY_INTERVAL_MS - 1);
    assert!(matches!(event, WatchEvent::Idle));
    // Due, and the keyboard is still away.
    match watcher.tick(&desktop, &mut hid, switched_at + RETRY_INTERVAL_MS) {
        WatchEvent::Retried {
            channel: ch,
            tried,
            failed,
            outcomes,
        } => {
            assert_eq!(ch, channel(2));
            assert_eq!(names(&tried), ["B378"]);
            assert_eq!(names(&failed), ["B378"]);
            assert_eq!(outcomes, Ok(vec![Err("not connected".to_string())]));
        }
        _ => panic!("expected a retry"),
    }
    // The keyboard is back.
    hid.devices
        .push((interface(LOGITECH, KEYBOARD, 0xFF43, 0x0202), hidpp_device()));
    match watcher.tick(&desktop, &mut hid, switched_at + 2 * RETRY_INTERVAL_MS) {
        WatchEvent::Retried { failed, .. } => assert!(failed.is_empty()),
        _ => panic!("expected a retry"),
    }
    assert_eq!(hosts_set(&hid), [(MOUSE, 1), (KEYBOARD, 1)]);
    let event = watcher.tick(&desktop, &mut hid, switched_at + 3 * RETRY_INTERVAL_MS);
    assert!(matches!(event, WatchEvent::Idle));
}

#[test]
fn tick_gives_up_when_the_cursor_moves() {
    let mut watcher = keyboard_and_mouse_watcher();
    let desktop = FakeDesktop::new(&[(0, 0, 1920, 1080)]);
    let mut hid = connected(&[MOUSE]);
    rest_at_the_right_edge(&mut watcher, &desktop, &mut hid);
    desktop.move_to(1000, 500);
    match watcher.tick(&desktop, &mut hid, START + 150) {
        WatchEvent::GaveUp { channel: ch, failed } => {
            assert_eq!(ch, channel(2));
            assert_eq!(names(&failed), ["B378"]);
        }
        _ => panic!("expected to give up"),
    }
    let event = watcher.tick(&desktop, &mut hid, START + 100 + RETRY_INTERVAL_MS);
    assert!(matches!(event, WatchEvent::Idle));
    assert_eq!(hosts_set(&hid), [(MOUSE, 1)]);
}

#[test]
fn tick_gives_up_after_a_minute() {
    let mut watcher = keyboard_and_mouse_watcher();
    let desktop = FakeDesktop::new(&[(0, 0, 1920, 1080)]);
    let mut hid = connected(&[MOUSE]);
    rest_at_the_right_edge(&mut watcher, &desktop, &mut hid);
    let event = watcher.tick(&desktop, &mut hid, START + 100 + RETRY_FOR_MS);
    assert!(matches!(event, WatchEvent::GaveUp { .. }));
}

#[test]
fn tick_keeps_retrying_while_the_cursor_is_unknown() {
    let mut watcher = keyboard_and_mouse_watcher();
    let desktop = FakeDesktop::new(&[(0, 0, 1920, 1080)]);
    let mut hid = connected(&[MOUSE]);
    rest_at_the_right_edge(&mut watcher, &desktop, &mut hid);
    desktop.cursor.set(None);
    let event = watcher.tick(&desktop, &mut hid, START + 100 + RETRY_INTERVAL_MS);
    assert!(matches!(event, WatchEvent::Retried { .. }));
}

fn pending() -> Pending {
    Pending {
        channel: channel(1),
        devices: vec![device(KEYBOARD)],
        origin: Point { x: 0, y: 10 },
        until: 60_500,
        next: 1_000,
    }
}

#[test]
fn retry_step_waits_retries_and_stops() {
    let here = Some(Point { x: 0, y: 10 });
    assert_eq!(retry_step(&pending(), here, 999), RetryStep::Wait);
    assert_eq!(retry_step(&pending(), here, 1_000), RetryStep::Retry);
    assert_eq!(retry_step(&pending(), None, 1_000), RetryStep::Retry);
    assert_eq!(retry_step(&pending(), here, 60_500), RetryStep::Stop);
    let moved = Some(Point { x: 1, y: 10 });
    assert_eq!(retry_step(&pending(), moved, 999), RetryStep::Stop);
}

#[test]
fn retries_every_half_second_for_a_minute() {
    assert_eq!(RETRY_INTERVAL_MS, 500);
    assert_eq!(RETRY_FOR_MS, 60_000);
}

#[test]
fn tick_reports_a_failed_enumeration() {
    let mut watcher = keyboard_and_mouse_watcher();
    let desktop = FakeDesktop::new(&[(0, 0, 1920, 1080)]);
    let mut hid = connected(&[MOUSE, KEYBOARD]);
    hid.fail_enumeration = true;
    match rest_at_the_right_edge(&mut watcher, &desktop, &mut hid) {
        WatchEvent::Switched {
            failed, outcomes, ..
        } => {
            assert_eq!(names(&failed), ["B378", "B034"]);
            assert_eq!(outcomes.unwrap_err().to_string(), "enumeration failed");
        }
        _ => panic!("expected a switch"),
    }
    assert!(hosts_set(&hid).is_empty());
}
