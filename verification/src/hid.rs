//! The HID access edgehop needs, as traits that the platform implements, and
//! what is built on them alone.

use vstd::prelude::*;

use crate::clock::{clock_start, elapsed_us};
use crate::config::{Device, DeviceView};
use crate::text::{hex16, push_hex16};

verus! {

pub const LOGITECH: u16 = 0x046D;

/// A Unifying or Bolt receiver's HID++ interfaces: one top-level collection
/// for long reports, and one for short reports.
pub const RECEIVER_USAGE_PAGE: u16 = 0xFF00;
pub const SHORT_REPORTS: u16 = 0x0001;
pub const LONG_REPORTS: u16 = 0x0002;

/// How long a [`Joined`] handle waits on one of its handles before trying the
/// other, in microseconds.
pub const READ_SLICE_US: u64 = 5_000;

/// How many reads in a row a timed wait makes without its clock advancing
/// before it gives up as if the time had run out. A clock that stands still
/// is the only way such a wait could otherwise go on forever.
pub const STALL_LIMIT: u64 = 1_000_000;

/// A failed HID operation, with the platform's description of it.
#[derive(Debug, PartialEq, Eq)]
pub struct IoError {
    message: String,
}

impl View for IoError {
    type V = Seq<char>;

    closed spec fn view(&self) -> Seq<char> {
        self.message@
    }
}

impl IoError {
    /// An error described by `message`.
    pub fn other(message: &str) -> (error: IoError)
        ensures
            error@ == message@,
    {
        IoError { message: message.to_owned() }
    }

    /// An error described by `message`.
    pub fn from_message(message: String) -> (error: IoError)
        ensures
            error@ == message@,
    {
        IoError { message }
    }

    /// The error's description.
    pub fn to_string(&self) -> (message: String)
        ensures
            message@ == self@,
    {
        self.message.clone()
    }
}

/// The bytes of a report, as the HID traits' relations speak of them.
pub type Bytes = Seq<u8>;

/// The interfaces opened on a [`Hid`], in the order they were opened.
pub type Opens = Seq<InterfaceView>;

/// Enumerates and opens HID interfaces.
///
/// `listed` and `opened` say what enumerating and opening can come to: the
/// platform's answers are its own, and the library's results are built
/// from them. `opens` is every interface opened so far, in order:
/// enumerating opens nothing, and each open adds the interface it opens.
pub trait Hid {
    type Handle: Handle;

    /// Whether enumerating the interfaces can come to `result`.
    spec fn listed(result: Result<Vec<Interface>, IoError>) -> bool;

    /// Whether opening `interface` can come to `result`.
    spec fn opened(interface: InterfaceView, result: Result<Self::Handle, IoError>) -> bool;

    /// The interfaces opened so far, in the order they were opened.
    spec fn opens(&self) -> Opens;

    /// Every HID interface currently present, freshly enumerated.
    fn interfaces(&mut self) -> (result: Result<Vec<Interface>, IoError>)
        ensures
            Self::listed(result),
            final(self).opens() == old(self).opens(),
    ;

    fn open(&mut self, interface: &Interface) -> (result: Result<Self::Handle, IoError>)
        ensures
            Self::opened(interface@, result),
            final(self).opens() == old(self).opens().push(interface@),
    ;
}

/// An open HID interface.
///
/// `wrote` and `gave` say what a write and a read on this handle can come
/// to: the device's answers are its own, and the library's results are
/// built from them.
pub trait Handle {
    /// Whether writing `report` can come to `result`.
    spec fn wrote(&self, report: Bytes, result: Result<(), IoError>) -> bool;

    /// Whether a read that waits at most `timeout_us` microseconds can come
    /// to `result`, with the buffer then holding `data`.
    spec fn gave(&self, timeout_us: u64, result: Result<usize, IoError>, data: Bytes) -> bool;

    /// Writes one report; the first byte is the report id.
    fn write(&self, report: &[u8]) -> (result: Result<(), IoError>)
        ensures
            self.wrote(report@, result),
    ;

    /// Reads one input report into `buffer`, waiting at most `timeout_us`
    /// microseconds. Returns its length, or 0 if none arrived in time.
    fn read(&self, buffer: &mut [u8], timeout_us: u64) -> (len: Result<usize, IoError>)
        ensures
            final(buffer)@.len() == old(buffer)@.len(),
            len matches Ok(n) ==> n <= old(buffer)@.len(),
            self.gave(timeout_us, len, final(buffer)@),
    ;
}

/// One top-level collection of a HID device. A device can have several,
/// e.g. its keyboard input and its HID++ channel.
#[derive(Debug, PartialEq, Eq)]
pub struct Interface {
    pub vendor_id: u16,
    pub product_id: u16,
    pub usage_page: u16,
    pub usage: u16,
    pub product: String,
    /// Platform-specific path to open the interface with.
    pub path: Vec<u8>,
}

/// An interface as plain values.
pub struct InterfaceView {
    pub vendor_id: u16,
    pub product_id: u16,
    pub usage_page: u16,
    pub usage: u16,
    pub product: Seq<char>,
    pub path: Seq<u8>,
}

impl View for Interface {
    type V = InterfaceView;

    open spec fn view(&self) -> InterfaceView {
        InterfaceView {
            vendor_id: self.vendor_id,
            product_id: self.product_id,
            usage_page: self.usage_page,
            usage: self.usage,
            product: self.product@,
            path: self.path@,
        }
    }
}

/// A copy of `bytes`.
pub fn copy_bytes(bytes: &[u8]) -> (copy: Vec<u8>)
    ensures
        copy@ == bytes@,
{
    let mut copy = Vec::new();
    let mut i: usize = 0;
    while i < bytes.len()
        invariant
            i <= bytes@.len(),
            copy@ == bytes@.subrange(0, i as int),
        decreases bytes@.len() - i,
    {
        copy.push(bytes[i]);
        i = i + 1;
        assert(copy@ =~= bytes@.subrange(0, i as int));
    }
    assert(bytes@.subrange(0, bytes@.len() as int) =~= bytes@);
    copy
}

/// Whether `a` and `b` hold the same bytes.
pub fn same_bytes(a: &[u8], b: &[u8]) -> (same: bool)
    ensures
        same == (a@ == b@),
{
    if a.len() != b.len() {
        return false;
    }
    let mut i: usize = 0;
    while i < a.len()
        invariant
            i <= a@.len(),
            a@.len() == b@.len(),
            a@.subrange(0, i as int) == b@.subrange(0, i as int),
        decreases a@.len() - i,
    {
        if a[i] != b[i] {
            assert(a@[i as int] != b@[i as int]);
            return false;
        }
        assert(a@.subrange(0, i + 1) =~= a@.subrange(0, i as int).push(a@[i as int]));
        assert(b@.subrange(0, i + 1) =~= b@.subrange(0, i as int).push(b@[i as int]));
        i = i + 1;
    }
    assert(a@ =~= a@.subrange(0, a@.len() as int));
    assert(b@ =~= b@.subrange(0, b@.len() as int));
    true
}

/// Whether an interface is the HID++ interface that `device` names.
pub open spec fn matches_spec(interface: InterfaceView, device: DeviceView) -> bool {
    interface.vendor_id == device.vendor_id && interface.product_id == device.product_id
        && interface.usage_page == device.usage_page && interface.usage == device.usage
}

/// Whether `candidate` is the short report interface, on a path of its own,
/// of the receiver whose long report interface is `long`.
pub open spec fn short_reports_of(long: InterfaceView, candidate: InterfaceView) -> bool {
    &&& candidate.vendor_id == long.vendor_id
    &&& candidate.product_id == long.product_id
    &&& candidate.usage_page == RECEIVER_USAGE_PAGE
    &&& candidate.usage == SHORT_REPORTS
    &&& candidate.path != long.path
}

/// Whether `interface` is a receiver's long report interface.
pub open spec fn is_receiver_long(interface: InterfaceView) -> bool {
    interface.usage_page == RECEIVER_USAGE_PAGE && interface.usage == LONG_REPORTS
}

/// The text `edgehop --list --verbose` logs for an interface: the values a
/// config entry needs.
pub open spec fn interface_text(i: InterfaceView) -> Seq<char> {
    "vendor_id = "@ + hex16(i.vendor_id) + "  product_id = "@ + hex16(i.product_id)
        + "  usage_page = "@ + hex16(i.usage_page) + "  usage = "@ + hex16(i.usage) + "  "@
        + i.product
}

impl Interface {
    /// A copy of the interface.
    pub fn duplicate(&self) -> (copy: Interface)
        ensures
            copy@ == self@,
    {
        Interface {
            vendor_id: self.vendor_id,
            product_id: self.product_id,
            usage_page: self.usage_page,
            usage: self.usage,
            product: self.product.clone(),
            path: copy_bytes(self.path.as_slice()),
        }
    }

    /// Whether this is the HID++ interface `device` names.
    pub fn matches(&self, device: &Device) -> (matched: bool)
        ensures
            matched == matches_spec(self@, device@),
    {
        self.vendor_id == device.vendor_id && self.product_id == device.product_id
            && self.usage_page == device.usage_page && self.usage == device.usage
    }

    /// The interface that carries the short reports of this receiver's long
    /// report interface, if the platform lists it on its own path. Windows
    /// opens each top-level collection apart, so a receiver's short reports,
    /// among them its errors for devices it cannot reach, never arrive on the
    /// long report interface. macOS lists both with the same path, and a
    /// handle to either gets every report.
    pub fn short_reports<'a>(&self, interfaces: &'a [Interface]) -> (short: Option<&'a Interface>)
        ensures
            match short {
                Some(found) => is_receiver_long(self@) && exists|k: int|
                    0 <= k < interfaces@.len() && interfaces@[k] == *found && short_reports_of(
                        self@,
                        interfaces@[k]@,
                    ) && forall|j: int|
                        0 <= j < k ==> !short_reports_of(self@, #[trigger] interfaces@[j]@),
                None => !is_receiver_long(self@) || forall|j: int|
                    0 <= j < interfaces@.len() ==> !short_reports_of(
                        self@,
                        #[trigger] interfaces@[j]@,
                    ),
            },
    {
        if !(self.usage_page == RECEIVER_USAGE_PAGE && self.usage == LONG_REPORTS) {
            return None;
        }
        let mut i: usize = 0;
        while i < interfaces.len()
            invariant
                i <= interfaces@.len(),
                is_receiver_long(self@),
                forall|j: int| 0 <= j < i ==> !short_reports_of(self@, #[trigger] interfaces@[j]@),
            decreases interfaces@.len() - i,
        {
            let candidate = &interfaces[i];
            if candidate.vendor_id == self.vendor_id && candidate.product_id == self.product_id
                && candidate.usage_page == RECEIVER_USAGE_PAGE && candidate.usage == SHORT_REPORTS
                && !same_bytes(candidate.path.as_slice(), self.path.as_slice()) {
                return Some(candidate);
            }
            i = i + 1;
        }
        None
    }

    /// The interface's ids, usage and product name, as a config needs them.
    pub fn to_string(&self) -> (text: String)
        ensures
            text@ == interface_text(self@),
    {
        let mut text = "vendor_id = ".to_owned();
        push_hex16(&mut text, self.vendor_id);
        text.append("  product_id = ");
        push_hex16(&mut text, self.product_id);
        text.append("  usage_page = ");
        push_hex16(&mut text, self.usage_page);
        text.append("  usage = ");
        push_hex16(&mut text, self.usage);
        text.append("  ");
        text.append(self.product.as_str());
        text
    }
}

/// A handle that also reads from a second one, if there is one. Writes go to
/// the first.
pub struct Joined<H> {
    main: H,
    extra: Option<H>,
}

impl<H: Handle> Joined<H> {
    pub fn new(main: H, extra: Option<H>) -> (joined: Self)
        ensures
            joined.main_handle() == main,
            joined.extra_handle() == extra,
    {
        Self { main, extra }
    }

    /// The handle that writes go to.
    pub closed spec fn main_handle(&self) -> H {
        self.main
    }

    /// The handle that is also read from, if any.
    pub closed spec fn extra_handle(&self) -> Option<H> {
        self.extra
    }
}

impl<H: Handle> Handle for Joined<H> {
    /// A write goes to the first handle.
    open spec fn wrote(&self, report: Bytes, result: Result<(), IoError>) -> bool {
        self.main_handle().wrote(report, result)
    }

    /// A read is the first handle's read where there is no second one, and
    /// otherwise a run of reads of both in turn (see [`joined_trace`]), the
    /// buffer holding what the last of them left.
    open spec fn gave(&self, timeout_us: u64, result: Result<usize, IoError>, data: Bytes) -> bool {
        match self.extra_handle() {
            None => self.main_handle().gave(timeout_us, result, data),
            Some(_) => exists|reads: Seq<SliceRead>|
                #[trigger] joined_trace(
                    self.main_handle(),
                    self.extra_handle().unwrap(),
                    timeout_us,
                    reads,
                    result,
                ) && (reads.len() > 0 ==> data == reads.last().data),
        }
    }

    fn write(&self, report: &[u8]) -> (result: Result<(), IoError>)
        ensures
            self.main_handle().wrote(report@, result),
    {
        self.main.write(report)
    }

    /// Reads from both handles in turn, a slice of the time at a time, until
    /// one has a report or the time is up: [`read_slice`] gives each read its
    /// time, and [`after_slice`] decides after it. With no second handle, it
    /// is the first handle's read. With two, a wait of no time reads
    /// nothing. A wait also ends, with nothing read, after [`STALL_LIMIT`]
    /// reads in a row without the clock moving.
    fn read(&self, buffer: &mut [u8], timeout_us: u64) -> (len: Result<usize, IoError>)
        ensures
            self.extra_handle() is None ==> self.main_handle().gave(timeout_us, len, final(buffer)@),
            self.extra_handle() is Some && timeout_us == 0 ==> len == Ok::<usize, IoError>(0),
            self.extra_handle() matches Some(extra) ==> exists|reads: Seq<SliceRead>|
                #[trigger] joined_trace(self.main_handle(), extra, timeout_us, reads, len) && (
                reads.len() > 0 ==> final(buffer)@ == reads.last().data),
    {
        let extra = match &self.extra {
            None => return self.main.read(buffer, timeout_us),
            Some(extra) => extra,
        };
        let start = clock_start();
        let mut last: u64 = 0;
        let mut stalls: u64 = 0;
        let ghost mut reads: Seq<SliceRead> = Seq::empty();
        loop
            invariant
                buffer@.len() == old(buffer)@.len(),
                last <= timeout_us,
                stalls <= STALL_LIMIT,
                self.extra == Some(*extra),
                reads.len() % 2 == 0,
                joined_trace(self.main, self.extra_handle().unwrap(), timeout_us, reads, Ok(0)),
                reads.len() > 0 ==> buffer@ == reads.last().data,
                forall|k: int| 0 <= k < reads.len() ==> (#[trigger] reads[k]).result == Ok::<
                    usize,
                    IoError,
                >(0),
            decreases timeout_us - last, STALL_LIMIT - stalls,
        {
            let slice = match read_slice(elapsed_us(&start), timeout_us) {
                None => {
                    assert(joined_trace(self.main_handle(), self.extra_handle().unwrap(), timeout_us, reads, Ok(0)));
                    assert(self.extra_handle() == Some(*extra));
                    assert(self.gave(timeout_us, Ok(0), buffer@));
                    return Ok(0);
                },
                Some(slice) => slice,
            };
            let got = self.main.read(buffer, slice);
            let ghost this = SliceRead {
                from_main: true,
                timeout_us: slice,
                result: got,
                data: buffer@,
            };
            proof {
                lemma_next_read(self.main, self.extra_handle().unwrap(), timeout_us, reads, this);
                reads = reads.push(this);
            }
            if let Some(result) = after_slice(got) {
                assert(joined_trace(self.main_handle(), self.extra_handle().unwrap(), timeout_us, reads, result) && buffer@
                    == reads.last().data);
                assert(self.extra_handle() == Some(*extra));
                assert(self.gave(timeout_us, result, buffer@));
                return result;
            }
            let slice = match read_slice(elapsed_us(&start), timeout_us) {
                None => {
                    assert(joined_trace(self.main_handle(), self.extra_handle().unwrap(), timeout_us, reads, Ok(0)));
                    assert(self.gave(timeout_us, Ok(0), buffer@));
                    return Ok(0);
                },
                Some(slice) => slice,
            };
            let got = extra.read(buffer, slice);
            let ghost this = SliceRead {
                from_main: false,
                timeout_us: slice,
                result: got,
                data: buffer@,
            };
            proof {
                lemma_next_read(self.main, self.extra_handle().unwrap(), timeout_us, reads, this);
                reads = reads.push(this);
            }
            if let Some(result) = after_slice(got) {
                assert(joined_trace(self.main_handle(), self.extra_handle().unwrap(), timeout_us, reads, result) && buffer@
                    == reads.last().data);
                assert(self.gave(timeout_us, result, buffer@));
                return result;
            }
            let now = elapsed_us(&start);
            if now > last && now < timeout_us {
                last = now;
                stalls = 0;
            } else if now >= timeout_us {
                assert(joined_trace(self.main_handle(), self.extra_handle().unwrap(), timeout_us, reads, Ok(0)));
                assert(self.extra_handle() == Some(*extra));
                return Ok(0);
            } else if stalls + 1 >= STALL_LIMIT {
                assert(joined_trace(self.main_handle(), self.extra_handle().unwrap(), timeout_us, reads, Ok(0)));
                assert(self.extra_handle() == Some(*extra));
                return Ok(0);
            } else {
                stalls = stalls + 1;
            }
        }
    }
}

/// One read of a part of a [`Joined`] handle: whether it was the first
/// part, the time it was given, what it came to, and what the buffer then
/// held.
pub struct SliceRead {
    pub from_main: bool,
    pub timeout_us: u64,
    pub result: Result<usize, IoError>,
    pub data: Bytes,
}

/// Whether a read of a [`Joined`] handle with parts `main` and `extra`, for
/// `timeout_us`, that made the reads `reads` came to `len`: the parts are
/// read in turn, the first one first, each for some time but at most
/// [`READ_SLICE_US`] and the whole timeout, and each read is one its part
/// can give; every read but the last read nothing; the result is the last
/// read's where it read something or failed, and nothing otherwise (the
/// time ran out, or the clock stood still).
pub open spec fn joined_trace<H: Handle>(
    main: H,
    extra: H,
    timeout_us: u64,
    reads: Seq<SliceRead>,
    len: Result<usize, IoError>,
) -> bool {
    &&& forall|k: int|
        0 <= k < reads.len() ==> (#[trigger] reads[k]).from_main == (k % 2 == 0) && 0
            < reads[k].timeout_us <= READ_SLICE_US && reads[k].timeout_us <= timeout_us && (if reads[k].from_main {
            main.gave(reads[k].timeout_us, reads[k].result, reads[k].data)
        } else {
            extra.gave(reads[k].timeout_us, reads[k].result, reads[k].data)
        })
    &&& forall|k: int|
        0 <= k < reads.len() - 1 ==> (#[trigger] reads[k]).result == Ok::<usize, IoError>(0)
    &&& if reads.len() > 0 && reads.last().result != Ok::<usize, IoError>(0) {
        len == reads.last().result
    } else {
        len == Ok::<usize, IoError>(0)
    }
}

/// A read of the part whose turn it is, for a slice of the time, extends
/// a run of reads that read nothing.
proof fn lemma_next_read<H: Handle>(
    main: H,
    extra: H,
    timeout_us: u64,
    reads: Seq<SliceRead>,
    next: SliceRead,
)
    requires
        joined_trace(main, extra, timeout_us, reads, Ok(0)),
        forall|k: int| 0 <= k < reads.len() ==> (#[trigger] reads[k]).result == Ok::<usize, IoError>(0),
        next.from_main == (reads.len() % 2 == 0),
        0 < next.timeout_us <= READ_SLICE_US,
        next.timeout_us <= timeout_us,
        if next.from_main {
            main.gave(next.timeout_us, next.result, next.data)
        } else {
            extra.gave(next.timeout_us, next.result, next.data)
        },
    ensures
        joined_trace(
            main,
            extra,
            timeout_us,
            reads.push(next),
            if next.result == Ok::<usize, IoError>(0) {
                Ok::<usize, IoError>(0)
            } else {
                next.result
            },
        ),
{
    let all = reads.push(next);
    assert(all.last() == next);
    assert forall|k: int| 0 <= k < reads.len() implies all[k] == reads[k] by {}
}

/// The time the next read of a [`Joined`] handle may take, `elapsed_us` into
/// a wait of `timeout_us`: what is left, but at most [`READ_SLICE_US`], and
/// `None` once the time is up.
pub fn read_slice(elapsed_us: u64, timeout_us: u64) -> (slice: Option<u64>)
    ensures
        match slice {
            None => elapsed_us >= timeout_us,
            Some(t) => elapsed_us < timeout_us && 0 < t && t <= READ_SLICE_US && (t
                == READ_SLICE_US || t == timeout_us - elapsed_us) && t <= timeout_us - elapsed_us,
        },
{
    if elapsed_us >= timeout_us {
        None
    } else if timeout_us - elapsed_us < READ_SLICE_US {
        Some(timeout_us - elapsed_us)
    } else {
        Some(READ_SLICE_US)
    }
}

/// What one read of a [`Joined`] handle's parts means: a report or an error
/// ends the read with it, and nothing read tries the other part.
pub fn after_slice(read: Result<usize, IoError>) -> (next: Option<Result<usize, IoError>>)
    ensures
        match read {
            Ok(0) => next is None,
            _ => next == Some(read),
        },
{
    match read {
        Ok(0) => None,
        _ => Some(read),
    }
}

/// Opens `interface` for HID++, joined with its short report interface among
/// `interfaces` if it has one: without it, a receiver's error for a device it
/// cannot reach is lost, and the request just times out. A short report
/// interface that fails to open is left out.
pub fn open_hidpp<H: Hid>(hid: &mut H, interface: &Interface, interfaces: &[Interface]) -> (joined:
    Result<Joined<H::Handle>, IoError>)
    ensures
        joined matches Ok(j) && j.extra_handle() is Some ==> has_short_reports(interface@, interfaces@),
        hidpp_opened::<H>(interface@, interfaces@, joined),
        final(hid).opens() == old(hid).opens() + hidpp_opens(interface@, interfaces@, joined is Ok),
{
    let main = hid.open(interface);
    let ghost opened = main;
    let short = match &main {
        Err(_) => None,
        Ok(_) => match interface.short_reports(interfaces) {
            Some(short) => {
                let ghost k = choose|k: int|
                    0 <= k < interfaces@.len() && interfaces@[k] == *short && short_reports_of(
                        interface@,
                        interfaces@[k]@,
                    ) && forall|j: int|
                        0 <= j < k ==> !short_reports_of(interface@, #[trigger] interfaces@[j]@);
                let result = hid.open(short);
                assert(short_index(interface@, interfaces@, k) && H::opened(interfaces@[k]@, result));
                proof {
                    lemma_short_index_unique(interface@, interfaces@, k);
                }
                Some(result)
            },
            None => None,
        },
    };
    let ghost also = short;
    let joined = join_opened(main, short);
    assert(joined_from(opened, also, joined));
    joined
}

/// Whether `k` is where the first short report interface of the receiver
/// whose long report interface is `long` stands among `interfaces`.
pub open spec fn short_index(long: InterfaceView, interfaces: Seq<Interface>, k: int) -> bool {
    &&& 0 <= k < interfaces.len()
    &&& short_reports_of(long, interfaces[k]@)
    &&& forall|j: int| 0 <= j < k ==> !short_reports_of(long, #[trigger] interfaces[j]@)
}

/// The first short report interface of the receiver whose long report
/// interface is `long`, among `interfaces`.
pub open spec fn short_of(long: InterfaceView, interfaces: Seq<Interface>) -> InterfaceView {
    interfaces[choose|k: int| short_index(long, interfaces, k)]@
}

/// What opening `interface` for HID++, among `interfaces`, opens: the
/// interface itself, then, where that opened (`opened`) and it has one, its
/// short report interface.
pub open spec fn hidpp_opens(interface: InterfaceView, interfaces: Seq<Interface>, opened: bool) -> Opens {
    if opened && has_short_reports(interface, interfaces) {
        seq![interface, short_of(interface, interfaces)]
    } else {
        seq![interface]
    }
}

/// Only one place is the first short report interface.
proof fn lemma_short_index_unique(long: InterfaceView, interfaces: Seq<Interface>, k: int)
    requires
        short_index(long, interfaces, k),
    ensures
        short_of(long, interfaces) == interfaces[k]@,
{
    let c = choose|c: int| short_index(long, interfaces, c);
    assert(short_index(long, interfaces, c));
    if c < k {
        assert(!short_reports_of(long, interfaces[c]@));
    } else if k < c {
        assert(!short_reports_of(long, interfaces[k]@));
    }
}

/// Whether opening `interface` for HID++, among `interfaces`, can come to
/// `joined`: `interface` is opened; where that succeeded and it is a
/// receiver's long report interface with a short report interface of its
/// own, the first such is opened too; the result joins them, leaving out a
/// short report interface that failed to open.
pub open spec fn hidpp_opened<H: Hid>(
    interface: InterfaceView,
    interfaces: Seq<Interface>,
    joined: Result<Joined<H::Handle>, IoError>,
) -> bool {
    exists|main: Result<H::Handle, IoError>, short: Option<Result<H::Handle, IoError>>|
        #[trigger] H::opened(interface, main) && (short is Some <==> (main is Ok
            && has_short_reports(interface, interfaces))) && (short matches Some(r) ==> exists|
            k: int,
        | short_index(interface, interfaces, k) && #[trigger] H::opened(interfaces[k]@, r))
            && #[trigger] joined_from(main, short, joined)
}

/// Whether the receiver's long report interface `long` has a short report
/// interface of its own among `interfaces`.
pub open spec fn has_short_reports(long: InterfaceView, interfaces: Seq<Interface>) -> bool {
    is_receiver_long(long) && exists|k: int|
        0 <= k < interfaces.len() && short_reports_of(long, #[trigger] interfaces[k]@)
}

/// Whether `joined` joins what opening an interface (`main`) and its short
/// report interface (`short`, if it was opened) gave: the error of the
/// first, or its handle with the second one where that opened.
pub open spec fn joined_from<T: Handle>(
    main: Result<T, IoError>,
    short: Option<Result<T, IoError>>,
    joined: Result<Joined<T>, IoError>,
) -> bool {
    match main {
        Err(e) => joined matches Err(f) && f@ == e@,
        Ok(handle) => joined matches Ok(j) && j.main_handle() == handle && j.extra_handle()
            == match short {
            Some(Ok(extra)) => Some(extra),
            _ => None,
        },
    }
}

/// Joins the handle opened on a HID++ interface with the one opened on its
/// short report interface, where there was one to open: fails as opening
/// the first did, and leaves out a second that failed to open.
pub fn join_opened<T: Handle>(main: Result<T, IoError>, short: Option<Result<T, IoError>>) -> (joined:
    Result<Joined<T>, IoError>)
    ensures
        joined_from(main, short, joined),
{
    let handle = match main {
        Ok(handle) => handle,
        Err(e) => return Err(e),
    };
    let extra = match short {
        Some(Ok(extra)) => Some(extra),
        _ => None,
    };
    Ok(Joined::new(handle, extra))
}

/// Whether `a` comes before `b` by product id, then usage page, then usage.
pub open spec fn key_before(a: InterfaceView, b: InterfaceView) -> bool {
    ||| a.product_id < b.product_id
    ||| a.product_id == b.product_id && a.usage_page < b.usage_page
    ||| a.product_id == b.product_id && a.usage_page == b.usage_page && a.usage < b.usage
}

/// Whether `a` and `b` have the same product id, usage page and usage.
pub open spec fn same_key(a: InterfaceView, b: InterfaceView) -> bool {
    a.product_id == b.product_id && a.usage_page == b.usage_page && a.usage == b.usage
}

/// The views of `interfaces`.
pub open spec fn views(interfaces: Seq<Interface>) -> Seq<InterfaceView> {
    interfaces.map_values(|i: Interface| i@)
}

/// `listed[i]` is `all[from[i]]`: `listed` holds each Logitech interface of
/// `all` once and nothing else, sorted by product id, usage page and usage,
/// with interfaces of equal key in the order of `all`.
pub open spec fn sorted_selection(
    all: Seq<InterfaceView>,
    listed: Seq<InterfaceView>,
    from: Seq<int>,
) -> bool {
    &&& from.len() == listed.len()
    &&& forall|i: int|
        0 <= i < listed.len() ==> 0 <= #[trigger] from[i] < all.len() && listed[i] == all[from[i]]
            && all[from[i]].vendor_id == LOGITECH
    &&& forall|j: int|
        0 <= j < all.len() && (#[trigger] all[j]).vendor_id == LOGITECH ==> exists|i: int|
            0 <= i < listed.len() && from[i] == j
    &&& forall|i: int, k: int|
        0 <= i < k < listed.len() ==> key_before(#[trigger] listed[i], #[trigger] listed[k]) || (
        same_key(listed[i], listed[k]) && from[i] < from[k])
}

/// The Logitech interfaces of `all`, sorted by product id, usage page and
/// usage, interfaces of equal key in the order of `all`.
pub open spec fn logitech_sorted(all: Seq<InterfaceView>, listed: Seq<InterfaceView>) -> bool {
    exists|from: Seq<int>| sorted_selection(all, listed, from)
}

/// The interfaces of connected Logitech devices, sorted by product id and
/// usage.
pub fn logitech_interfaces<H: Hid>(hid: &mut H) -> (listed: Result<Vec<Interface>, IoError>)
    ensures
        listed matches Ok(v) ==> exists|all: Seq<InterfaceView>| logitech_sorted(all, views(v@)),
        listed matches Ok(v) ==> forall|k: int|
            0 <= k < v@.len() ==> (#[trigger] v@[k]).vendor_id == LOGITECH,
        exists|enumerated: Result<Vec<Interface>, IoError>|
            #[trigger] H::listed(enumerated) && listed_from(enumerated, listed),
        final(hid).opens() == old(hid).opens(),
{
    let enumerated = hid.interfaces();
    let ghost found = enumerated;
    let listed = logitech_listed(enumerated);
    proof {
        if let Ok(all) = found {
            assert(logitech_sorted(views(all@), views(listed->Ok_0@)));
        }
        assert(H::listed(found) && listed_from(found, listed));
    }
    listed
}

/// Whether `listed` is what [`logitech_listed`] makes of `enumerated`.
pub open spec fn listed_from(
    enumerated: Result<Vec<Interface>, IoError>,
    listed: Result<Vec<Interface>, IoError>,
) -> bool {
    match enumerated {
        Ok(all) => listed matches Ok(v) && logitech_sorted(views(all@), views(v@)) && forall|k: int|
            0 <= k < v@.len() ==> (#[trigger] v@[k]).vendor_id == LOGITECH,
        Err(e) => listed matches Err(f) && f@ == e@,
    }
}

/// The Logitech interfaces among those that enumeration found, sorted by
/// product id and usage, or its failure.
pub fn logitech_listed(enumerated: Result<Vec<Interface>, IoError>) -> (listed: Result<
    Vec<Interface>,
    IoError,
>)
    ensures
        listed_from(enumerated, listed),
{
    match enumerated {
        Ok(all) => {
            let listed = logitech_sorted_of(&all);
            assert forall|k: int| 0 <= k < listed@.len() implies (#[trigger] listed@[k]).vendor_id
                == LOGITECH by {
                let from = choose|from: Seq<int>|
                    sorted_selection(views(all@), views(listed@), from);
                assert(views(listed@)[k] == listed@[k]@);
                assert(views(listed@)[k] == views(all@)[from[k]]);
            }
            Ok(listed)
        },
        Err(e) => Err(e),
    }
}

/// The Logitech interfaces among `all`, sorted by product id, usage page and
/// usage, interfaces of equal key in the order of `all`.
pub fn logitech_sorted_of(all: &Vec<Interface>) -> (listed: Vec<Interface>)
    ensures
        logitech_sorted(views(all@), views(listed@)),
{
    let ghost all_v = views(all@);
    let mut listed: Vec<Interface> = Vec::new();
    let ghost mut from: Seq<int> = Seq::empty();
    let mut j: usize = 0;
    while j < all.len()
        invariant
            j <= all@.len(),
            all_v == views(all@),
            from.len() == listed@.len(),
            forall|i: int|
                0 <= i < listed@.len() ==> 0 <= #[trigger] from[i] < j && listed@[i]@ == all_v[from[i]]
                    && all_v[from[i]].vendor_id == LOGITECH,
            forall|jj: int|
                0 <= jj < j && (#[trigger] all_v[jj]).vendor_id == LOGITECH ==> exists|i: int|
                    0 <= i < listed@.len() && from[i] == jj,
            forall|i: int, k: int|
                0 <= i < k < listed@.len() ==> key_before(
                    #[trigger] listed@[i]@,
                    #[trigger] listed@[k]@,
                ) || (same_key(listed@[i]@, listed@[k]@) && from[i] < from[k]),
        decreases all@.len() - j,
    {
        let item = &all[j];
        assert(all_v[j as int] == item@);
        if item.vendor_id == LOGITECH {
            // The first position whose key comes after the item's.
            let mut pos: usize = 0;
            while pos < listed.len()
                invariant
                    pos <= listed@.len(),
                    forall|i: int| 0 <= i < pos ==> !key_before(item@, #[trigger] listed@[i]@),
                ensures
                    pos <= listed@.len(),
                    forall|i: int| 0 <= i < pos ==> !key_before(item@, #[trigger] listed@[i]@),
                    pos < listed@.len() ==> key_before(item@, listed@[pos as int]@),
                decreases listed@.len() - pos,
            {
                let other = &listed[pos];
                if item.product_id < other.product_id || (item.product_id == other.product_id
                    && item.usage_page < other.usage_page) || (item.product_id == other.product_id
                    && item.usage_page == other.usage_page && item.usage < other.usage) {
                    break;
                }
                pos = pos + 1;
            }
            let ghost old_listed = listed@;
            let ghost old_from = from;
            assert(forall|i: int|
                pos <= i < old_listed.len() ==> key_before(item@, #[trigger] old_listed[i]@)) by {
                if pos < old_listed.len() {
                    assert(key_before(item@, old_listed[pos as int]@));
                    assert forall|i: int| pos <= i < old_listed.len() implies key_before(
                        item@,
                        #[trigger] old_listed[i]@,
                    ) by {
                        if i > pos {
                            assert(key_before(old_listed[pos as int]@, old_listed[i]@) || same_key(
                                old_listed[pos as int]@,
                                old_listed[i]@,
                            ));
                        }
                    }
                }
            }
            listed.insert(pos, item.duplicate());
            proof {
                from = old_from.insert(pos as int, j as int);
                assert forall|i: int, k: int| 0 <= i < k < listed@.len() implies key_before(
                    #[trigger] listed@[i]@,
                    #[trigger] listed@[k]@,
                ) || (same_key(listed@[i]@, listed@[k]@) && from[i] < from[k]) by {
                    if i < pos && k < pos {
                        assert(listed@[i] == old_listed[i] && listed@[k] == old_listed[k]);
                    } else if i < pos && k == pos {
                        assert(listed@[i] == old_listed[i]);
                    } else if i < pos {
                        assert(listed@[i] == old_listed[i] && listed@[k] == old_listed[k - 1]);
                    } else if i == pos {
                        assert(listed@[k] == old_listed[k - 1]);
                    } else {
                        assert(listed@[i] == old_listed[i - 1] && listed@[k] == old_listed[k - 1]);
                    }
                }
                assert forall|jj: int|
                    0 <= jj < j + 1 && (#[trigger] all_v[jj]).vendor_id == LOGITECH implies exists|
                    i: int,
                | 0 <= i < listed@.len() && from[i] == jj by {
                    if jj == j {
                        assert(from[pos as int] == jj);
                    } else {
                        let i0 = choose|i: int| 0 <= i < old_listed.len() && old_from[i] == jj;
                        if i0 < pos {
                            assert(from[i0] == jj);
                        } else {
                            assert(from[i0 + 1] == jj);
                        }
                    }
                }
                assert forall|i: int| 0 <= i < listed@.len() implies 0 <= #[trigger] from[i] < j + 1
                    && listed@[i]@ == all_v[from[i]] && all_v[from[i]].vendor_id == LOGITECH by {
                    if i < pos {
                        assert(listed@[i] == old_listed[i]);
                    } else if i > pos {
                        assert(listed@[i] == old_listed[i - 1]);
                    }
                }
            }
        }
        j = j + 1;
    }
    assert(sorted_selection(all_v, views(listed@), from)) by {
        assert forall|i: int| 0 <= i < listed@.len() implies views(listed@)[i] == listed@[i]@ by {}
    }
    listed
}

} // verus!
