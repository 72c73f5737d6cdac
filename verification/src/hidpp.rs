//! Just enough HID++ 2.0 to move a device to another Easy-Switch host: look up
//! the ChangeHost feature (0x1814) through IRoot, then call its
//! setCurrentHost function. `edgehop --list` also asks for the device's name
//! (feature 0x0005) and its hosts.
//!
//! Every request is a 20-byte long report:
//!
//! ```text
//! 11 <device index> <feature index> <function << 4 | software id> <params...>
//! ```
//!
//! A reply echoes the first four bytes. An error reply has feature index FF,
//! followed by the request's feature index, function byte, and error code. A
//! Unifying or Bolt receiver answers for a device it cannot reach with a
//! HID++ 1.0 short report: 10, the device index, 8F, the request's feature
//! index and function byte, and an error code.

use vstd::prelude::*;

use crate::clock::{clock_start, elapsed_us};
use crate::hid::{Handle, IoError, STALL_LIMIT};
use crate::text::{hex8, push_hex8};

verus! {

pub const REPORT_ID: u8 = 0x11;
pub const SHORT_REPORT_ID: u8 = 0x10;
pub const REPORT_LEN: usize = 20;
pub const PARAMS_LEN: usize = 16;
pub const ERROR_FEATURE_INDEX: u8 = 0xFF;
/// The sub id of a HID++ 1.0 error report.
pub const RECEIVER_ERROR: u8 = 0x8F;
/// Tags our requests so their replies can be told apart; any nonzero value
/// works.
pub const SOFTWARE_ID: u8 = 0x0A;

/// IRoot is always at feature index 0; its function 0 is getFeature.
pub const IROOT: u8 = 0x00;
pub const GET_FEATURE: u8 = 0;
pub const CHANGE_HOST: u16 = 0x1814;
/// ChangeHost's getHostInfo.
pub const GET_HOST_INFO: u8 = 0;
/// ChangeHost's setCurrentHost.
pub const SET_CURRENT_HOST: u8 = 1;
pub const DEVICE_NAME: u16 = 0x0005;
/// DeviceName's getDeviceNameCount.
pub const GET_NAME_LENGTH: u8 = 0;
/// DeviceName's getDeviceName.
pub const GET_NAME: u8 = 1;

/// The HID++ 1.0 error for a slot with no device paired.
pub const UNKNOWN_DEVICE: u8 = 0x08;
/// The HID++ 1.0 error for a device the receiver cannot reach.
pub const RESOURCE_ERROR: u8 = 0x09;

/// Replies arrive within tens of milliseconds. A lost report, which happens
/// while a device wakes up, is recovered faster by resending than by waiting.
pub const REPLY_TIMEOUT_US: u64 = 250_000;
pub const ATTEMPTS: usize = 3;
/// How long setCurrentHost waits for an error before assuming success.
pub const ERROR_TIMEOUT_US: u64 = 150_000;

#[derive(Debug)]
pub enum Error {
    Io(IoError),
    NoReply,
    Unsupported,
    /// A HID++ 2.0 error code from the device.
    Device(u8),
    /// A HID++ 1.0 error code from the receiver the device is paired to.
    Receiver(u8),
}

/// The message for an error, as the log and `edgehop --list` show it.
pub open spec fn error_message(error: &Error) -> Seq<char> {
    match error {
        Error::Io(e) => e@,
        Error::NoReply => "no reply after 3 attempts"@,
        Error::Unsupported => "device does not support ChangeHost (0x1814)"@,
        Error::Device(code) => "device returned HID++ error "@ + hex8(*code),
        Error::Receiver(code) => if *code == RESOURCE_ERROR {
            "device is not reachable (asleep, out of range, or on another host)"@
        } else {
            "receiver returned HID++ 1.0 error "@ + hex8(*code)
        },
    }
}

impl Error {
    /// The error's message.
    pub fn to_string(&self) -> (message: String)
        ensures
            message@ == error_message(self),
    {
        match self {
            Error::Io(e) => e.to_string(),
            Error::NoReply => "no reply after 3 attempts".to_owned(),
            Error::Unsupported => "device does not support ChangeHost (0x1814)".to_owned(),
            Error::Device(code) => {
                let mut message = "device returned HID++ error ".to_owned();
                push_hex8(&mut message, *code);
                message
            },
            Error::Receiver(code) => if *code == RESOURCE_ERROR {
                "device is not reachable (asleep, out of range, or on another host)".to_owned()
            } else {
                let mut message = "receiver returned HID++ 1.0 error ".to_owned();
                push_hex8(&mut message, *code);
                message
            },
        }
    }
}

/// The Easy-Switch hosts of a device: how many, and the zero-based one it is
/// on.
#[derive(Clone, Copy, Debug, PartialEq, Eq)]
pub struct Hosts {
    pub count: u8,
    pub current: u8,
}

/// The byte that names `function` and tags the request as ours: the
/// function in the high nibble (its bits past four are shifted out), the
/// software id in the low one.
pub open spec fn function_byte(function: u8) -> u8 {
    ((function % 16) * 16 + SOFTWARE_ID) as u8
}

/// The report that calls `function` of the feature at `feature_index` on the
/// device at `device_index`, with `params`, zero-padded.
pub open spec fn request_report(
    device_index: u8,
    feature_index: u8,
    function: u8,
    params: Seq<u8>,
) -> Seq<u8> {
    seq![REPORT_ID, device_index, feature_index, function_byte(function)] + params
        + Seq::new((PARAMS_LEN - params.len()) as nat, |i: int| 0u8)
}

/// One HID++ request, as written.
pub struct Request {
    report: Vec<u8>,
}

impl View for Request {
    type V = Seq<u8>;

    closed spec fn view(&self) -> Seq<u8> {
        self.report@
    }
}

/// How a report answers a request.
pub enum Reply {
    /// The reply's 16 parameter bytes.
    Success(Vec<u8>),
    /// A HID++ 2.0 error code.
    Error(u8),
    /// A HID++ 1.0 error code from a receiver.
    ReceiverError(u8),
    /// Input that has nothing to do with the request, such as mouse movement.
    Unrelated,
}

/// A [`Reply`] as plain values.
pub enum ReplyView {
    Success(Seq<u8>),
    Error(u8),
    ReceiverError(u8),
    Unrelated,
}

impl View for Reply {
    type V = ReplyView;

    open spec fn view(&self) -> ReplyView {
        match self {
            Reply::Success(params) => ReplyView::Success(params@),
            Reply::Error(code) => ReplyView::Error(*code),
            Reply::ReceiverError(code) => ReplyView::ReceiverError(*code),
            Reply::Unrelated => ReplyView::Unrelated,
        }
    }
}

/// Whether `report` is a HID++ 2.0 error reply to `request`.
pub open spec fn is_error_reply(request: Seq<u8>, report: Seq<u8>) -> bool {
    &&& report.len() >= 6
    &&& report[0] == REPORT_ID
    &&& report[1] == request[1]
    &&& report[2] == ERROR_FEATURE_INDEX
    &&& report[3] == request[2]
    &&& report[4] == request[3]
}

/// Whether `report` is a receiver's HID++ 1.0 error reply to `request`.
pub open spec fn is_receiver_error(request: Seq<u8>, report: Seq<u8>) -> bool {
    &&& report.len() >= 6
    &&& report[0] == SHORT_REPORT_ID
    &&& report[1] == request[1]
    &&& report[2] == RECEIVER_ERROR
    &&& report[3] == request[2]
    &&& report[4] == request[3]
}

/// Whether `report` is a complete reply to `request`: a long report that
/// echoes its first four bytes.
pub open spec fn is_answer(request: Seq<u8>, report: Seq<u8>) -> bool {
    &&& report.len() == REPORT_LEN
    &&& report[0] == REPORT_ID
    &&& report[1] == request[1]
    &&& report[2] == request[2]
    &&& report[3] == request[3]
}

/// How `report` answers `request`.
pub open spec fn reply_to(request: Seq<u8>, report: Seq<u8>) -> ReplyView {
    if is_error_reply(request, report) {
        ReplyView::Error(report[5])
    } else if is_receiver_error(request, report) {
        ReplyView::ReceiverError(report[5])
    } else if is_answer(request, report) {
        ReplyView::Success(report.subrange(4, REPORT_LEN as int))
    } else {
        ReplyView::Unrelated
    }
}

impl Request {
    pub fn new(device_index: u8, feature_index: u8, function: u8, params: &[u8]) -> (request:
        Self)
        requires
            params@.len() <= PARAMS_LEN,
        ensures
            request@ == request_report(device_index, feature_index, function, params@),
    {
        let mut report = Vec::new();
        report.push(REPORT_ID);
        report.push(device_index);
        report.push(feature_index);
        report.push((function % 16) * 16 + SOFTWARE_ID);
        let mut i: usize = 0;
        while i < params.len()
            invariant
                i <= params@.len(),
                params@.len() <= PARAMS_LEN,
                report@ == seq![REPORT_ID, device_index, feature_index, function_byte(function)]
                    + params@.subrange(0, i as int),
            decreases params@.len() - i,
        {
            report.push(params[i]);
            i = i + 1;
            assert(params@.subrange(0, i as int) =~= params@.subrange(0, i - 1).push(params@[i - 1]));
        }
        assert(params@.subrange(0, params@.len() as int) =~= params@);
        let ghost head = report@;
        while report.len() < REPORT_LEN
            invariant
                head.len() == 4 + params@.len(),
                head.len() <= report@.len() <= REPORT_LEN,
                report@.subrange(0, head.len() as int) == head,
                forall|k: int| head.len() <= k < report@.len() ==> report@[k] == 0,
            decreases REPORT_LEN - report@.len(),
        {
            report.push(0);
        }
        assert(report@ =~= request_report(device_index, feature_index, function, params@));
        Request { report }
    }

    /// The report to write.
    pub fn as_slice(&self) -> (report: &[u8])
        ensures
            report@ == self@,
    {
        self.report.as_slice()
    }

    /// How `report` answers this request.
    pub fn reply(&self, report: &[u8]) -> (reply: Reply)
        requires
            self@.len() == REPORT_LEN,
        ensures
            reply@ == reply_to(self@, report@),
    {
        let device_index = self.report[1];
        let feature_index = self.report[2];
        let function = self.report[3];
        if report.len() >= 6 && report[0] == REPORT_ID && report[1] == device_index && report[2]
            == ERROR_FEATURE_INDEX && report[3] == feature_index && report[4] == function {
            return Reply::Error(report[5]);
        }
        if report.len() >= 6 && report[0] == SHORT_REPORT_ID && report[1] == device_index
            && report[2] == RECEIVER_ERROR && report[3] == feature_index && report[4] == function {
            return Reply::ReceiverError(report[5]);
        }
        if report.len() == REPORT_LEN && report[0] == REPORT_ID && report[1] == device_index
            && report[2] == feature_index && report[3] == function {
            let mut params = Vec::new();
            let mut i: usize = 4;
            while i < REPORT_LEN
                invariant
                    4 <= i <= REPORT_LEN,
                    report@.len() == REPORT_LEN,
                    params@ == report@.subrange(4, i as int),
                decreases REPORT_LEN - i,
            {
                params.push(report[i]);
                i = i + 1;
                assert(params@ =~= report@.subrange(4, i as int));
            }
            return Reply::Success(params);
        }
        Reply::Unrelated
    }
}

/// The time left until `deadline`, or `None` once `now` has reached it.
pub fn time_left(now: u64, deadline: u64) -> (left: Option<u64>)
    ensures
        left == (if now < deadline {
            Some((deadline - now) as u64)
        } else {
            None
        }),
{
    if now < deadline {
        Some(deadline - now)
    } else {
        None
    }
}

/// What a wait for the reply to `request` comes to after one read that
/// gave `read`, with the bytes it read at the start of `report`: `None` to
/// read on past input that does not answer the request, otherwise the
/// wait's result.
pub open spec fn read_outcome(
    request: Seq<u8>,
    read: Result<usize, IoError>,
    report: Seq<u8>,
    next: Option<Result<Option<Vec<u8>>, Error>>,
) -> bool {
    match read {
        Err(e) => next == Some(Err::<Option<Vec<u8>>, Error>(Error::Io(e))),
        Ok(n) => if n == 0 {
            next matches Some(Ok(None))
        } else {
            match reply_to(request, report.subrange(0, n as int)) {
                ReplyView::Success(params) => next matches Some(Ok(Some(p))) && p@ == params,
                ReplyView::Error(code) => next matches Some(Err(Error::Device(c))) && c == code,
                ReplyView::ReceiverError(code) => next matches Some(Err(Error::Receiver(c))) && c
                    == code,
                ReplyView::Unrelated => next is None,
            }
        },
    }
}

/// Decides what one read means to a wait for the reply to `request`: a
/// failed read ends it with the handle's error, a read of nothing (no input
/// in time) with no reply, and a report with the result or error it
/// answers `request` with; other input is skipped.
pub fn after_read(request: &Request, read: Result<usize, IoError>, report: &[u8]) -> (next:
    Option<Result<Option<Vec<u8>>, Error>>)
    requires
        request@.len() == REPORT_LEN,
        read matches Ok(n) ==> n <= report@.len(),
    ensures
        read_outcome(request@, read, report@, next),
{
    match read {
        Err(e) => Some(Err(Error::Io(e))),
        Ok(len) => {
            if len == 0 {
                return Some(Ok(None));
            }
            let received = &report[0..len];
            assert(received@ == report@.subrange(0, len as int));
            match request.reply(received) {
                Reply::Success(params) => Some(Ok(Some(params))),
                Reply::Error(code) => Some(Err(Error::Device(code))),
                Reply::ReceiverError(code) => Some(Err(Error::Receiver(code))),
                Reply::Unrelated => None,
            }
        },
    }
}

/// One read while waiting for a reply: what it came to, the buffer it read
/// into, and the time it was given.
pub struct ReadView {
    pub read: Result<usize, IoError>,
    pub report: Seq<u8>,
    pub timeout_us: u64,
}

/// Whether a wait of `timeout_us` for the reply to `request` that made the
/// reads `reads` came to `reply`: each read is given some of the time left;
/// every read but the last brought input that does not answer the request;
/// the wait ends as [`after_read`] decides on the last read, or with no
/// reply when the time ran out or the clock stood still for
/// [`STALL_LIMIT`] reads in a row.
pub open spec fn await_trace<H: Handle>(
    handle: H,
    request: Seq<u8>,
    timeout_us: u64,
    reads: Seq<ReadView>,
    reply: Result<Option<Vec<u8>>, Error>,
) -> bool {
    &&& forall|k: int|
        0 <= k < reads.len() ==> 0 < (#[trigger] reads[k]).timeout_us <= timeout_us && handle.gave(
            reads[k].timeout_us,
            reads[k].read,
            reads[k].report,
        )
    &&& forall|k: int|
        0 <= k < reads.len() - 1 ==> read_outcome(
            request,
            (#[trigger] reads[k]).read,
            reads[k].report,
            None,
        )
    &&& {
        ||| (reply matches Ok(None) && (reads.len() == 0 || read_outcome(
            request,
            reads.last().read,
            reads.last().report,
            None,
        )))
        ||| (reads.len() > 0 && read_outcome(
            request,
            reads.last().read,
            reads.last().report,
            Some(reply),
        ))
    }
}

/// Whether some wait of `timeout_us` for the reply to `request` came to
/// `reply`, read by read.
pub open spec fn awaited<H: Handle>(
    handle: H,
    request: Seq<u8>, timeout_us: u64, reply: Result<Option<Vec<u8>>, Error>) -> bool {
    exists|reads: Seq<ReadView>| #[trigger] await_trace(handle, request, timeout_us, reads, reply)
}

/// Reads until the reply to `request` arrives, skipping unrelated input such
/// as mouse movement. Returns `None` if there is no reply within
/// `timeout_us` microseconds, or after [`STALL_LIMIT`] reads in a row
/// during which the clock did not move. Each read waits at most for the time
/// left, and what it brought is judged by [`after_read`].
fn await_reply<H: Handle>(handle: &H, request: &Request, timeout_us: u64) -> (reply: Result<
    Option<Vec<u8>>,
    Error,
>)
    requires
        request@.len() == REPORT_LEN,
    ensures
        wait_shape(reply),
        exists|reads: Seq<ReadView>| #[trigger] await_trace(*handle, request@, timeout_us, reads, reply),
{
    let start = clock_start();
    let mut report: Vec<u8> = vec![0u8; REPORT_LEN];
    let mut last: u64 = 0;
    let mut stalls: u64 = 0;
    let ghost mut reads: Seq<ReadView> = Seq::empty();
    loop
        invariant
            report@.len() == REPORT_LEN,
            request@.len() == REPORT_LEN,
            last <= timeout_us,
            stalls <= STALL_LIMIT,
            await_trace(*handle, request@, timeout_us, reads, Ok(None)),
            forall|k: int|
                0 <= k < reads.len() ==> read_outcome(
                    request@,
                    (#[trigger] reads[k]).read,
                    reads[k].report,
                    None,
                ),
        decreases timeout_us - last, STALL_LIMIT - stalls,
    {
        let left = match time_left(elapsed_us(&start), timeout_us) {
            None => return Ok(None),
            Some(left) => left,
        };
        let read = handle.read(report.as_mut_slice(), left);
        let ghost got = read;
        let next = after_read(request, read, report.as_slice());
        let ghost this = ReadView { read: got, report: report@, timeout_us: left };
        proof {
            let all = reads.push(this);
            assert(all.last() == this);
            assert forall|k: int| 0 <= k < reads.len() implies all[k] == reads[k] by {}
            if next is None {
                assert(await_trace(*handle, request@, timeout_us, all, Ok(None)));
            } else {
                assert(await_trace(*handle, request@, timeout_us, all, next->0));
            }
            reads = all;
        }
        proof {
            if let Ok(n) = got {
                if n > 0 {
                    if let ReplyView::Success(params) = reply_to(
                        request@,
                        report@.subrange(0, n as int),
                    ) {
                        assert(params.len() == PARAMS_LEN);
                    }
                }
            }
        }
        if let Some(result) = next {
            return result;
        }
        let now = elapsed_us(&start);
        if now > last && now < timeout_us {
            last = now;
            stalls = 0;
        } else if now >= timeout_us {
            return Ok(None);
        } else if stalls + 1 >= STALL_LIMIT {
            return Ok(None);
        } else {
            stalls = stalls + 1;
        }
    }
}

/// What a call comes to after the wait that followed its `sent`-th send:
/// `None` to send the request again, otherwise the call's result.
pub open spec fn wait_outcome(
    sent: usize,
    waited: Result<Option<Vec<u8>>, Error>,
    next: Option<Result<Vec<u8>, Error>>,
) -> bool {
    match waited {
        Ok(Some(params)) => next matches Some(Ok(p)) && p@ == params@,
        Ok(None) => if sent < ATTEMPTS {
            next is None
        } else {
            next matches Some(Err(Error::NoReply))
        },
        Err(e) => next == Some(Err::<Vec<u8>, Error>(e)),
    }
}

/// Decides what a wait means to a call: a reply or an error ends it, and
/// no reply sends the request again, up to `ATTEMPTS` sends in all.
pub fn after_wait(sent: usize, waited: Result<Option<Vec<u8>>, Error>) -> (next: Option<
    Result<Vec<u8>, Error>,
>)
    requires
        1 <= sent <= ATTEMPTS,
    ensures
        wait_outcome(sent, waited, next),
{
    match waited {
        Ok(Some(params)) => Some(Ok(params)),
        Ok(None) => if sent < ATTEMPTS {
            None
        } else {
            Some(Err(Error::NoReply))
        },
        Err(e) => Some(Err(e)),
    }
}

/// One send of a request, and the wait that followed it, as the handle
/// answered them: what writing `request` gave, and what the wait for its
/// reply came to.
pub struct Exchange {
    pub request: Seq<u8>,
    pub wrote: Result<(), IoError>,
    pub waited: Result<Option<Vec<u8>>, Error>,
}

/// What a wait for a reply can come to: parameters of a reply, no reply, or
/// an error that is the handle's or is a reply.
pub open spec fn wait_shape(waited: Result<Option<Vec<u8>>, Error>) -> bool {
    &&& waited matches Ok(Some(params)) ==> params@.len() == PARAMS_LEN
    &&& waited matches Err(e) ==> (e is Io || e is Device || e is Receiver)
}

/// Whether a call of `request` that made the sends `sends` came to
/// `result`: the same request sent once to `ATTEMPTS` times, again only
/// after a write that succeeded and a wait without reply; the last send
/// ends the call with the write's error, or as [`after_wait`] decides.
pub open spec fn call_trace<H: Handle>(
    handle: H,
    request: Seq<u8>, sends: Seq<Exchange>, result: Result<Vec<u8>, Error>) -> bool {
    &&& 1 <= sends.len() <= ATTEMPTS
    &&& forall|k: int|
        0 <= k < sends.len() ==> (#[trigger] sends[k]).request == request && handle.wrote(
            request,
            sends[k].wrote,
        )
    &&& forall|k: int|
        0 <= k < sends.len() - 1 ==> (#[trigger] sends[k]).wrote is Ok && (
        sends[k].waited matches Ok(None))
    &&& forall|k: int|
        0 <= k < sends.len() && (#[trigger] sends[k]).wrote is Ok ==> awaited(handle, 
            request,
            REPLY_TIMEOUT_US,
            sends[k].waited,
        )
    &&& match sends.last().wrote {
        Err(e) => result == Err::<Vec<u8>, Error>(Error::Io(e)),
        Ok(()) => wait_shape(sends.last().waited) && wait_outcome(
            sends.len() as usize,
            sends.last().waited,
            Some(result),
        ),
    }
}

/// Sends `request` until it is answered, at most `ATTEMPTS` times, and
/// returns the reply's parameters; [`after_wait`] decides after each wait.
fn call<H: Handle>(handle: &H, request: &Request) -> (params: Result<Vec<u8>, Error>)
    requires
        request@.len() == REPORT_LEN,
    ensures
        params matches Ok(p) ==> p@.len() == PARAMS_LEN,
        params matches Err(e) ==> !(e is Unsupported),
        exists|sends: Seq<Exchange>| #[trigger] call_trace(*handle, request@, sends, params),
{
    let mut sent: usize = 0;
    let ghost mut sends: Seq<Exchange> = Seq::empty();
    loop
        invariant
            request@.len() == REPORT_LEN,
            sent < ATTEMPTS,
            sends.len() == sent,
            forall|k: int|
                0 <= k < sends.len() ==> (#[trigger] sends[k]).request == request@ && handle.wrote(
                    request@,
                    sends[k].wrote,
                ),
            forall|k: int|
                0 <= k < sends.len() ==> (#[trigger] sends[k]).wrote is Ok && (
                sends[k].waited matches Ok(None)) && awaited(
                    *handle,
                    request@,
                    REPLY_TIMEOUT_US,
                    sends[k].waited,
                ),
        decreases ATTEMPTS - sent,
    {
        let wrote = handle.write(request.as_slice());
        let ghost wrote_result = wrote;
        if let Err(e) = wrote {
            let ghost last = Exchange { request: request@, wrote: wrote_result, waited: Ok(None) };
            let result = Err(Error::Io(e));
            proof {
                let all = sends.push(last);
                assert(all.last() == last);
                assert(call_trace(*handle, request@, all, result));
            }
            return result;
        }
        sent = sent + 1;
        let waited = await_reply(handle, request, REPLY_TIMEOUT_US);
        let ghost w = waited;
        let ghost this = Exchange { request: request@, wrote: wrote_result, waited: w };
        let next = after_wait(sent, waited);
        proof {
            if let Ok(Some(p)) = w {
                assert(p@.len() == PARAMS_LEN);
            }
        }
        if let Some(result) = next {
            proof {
                let all = sends.push(this);
                assert(all.last() == this);
                assert(forall|k: int| 0 <= k < all.len() - 1 ==> all[k] == sends[k]);
                assert(call_trace(*handle, request@, all, result));
            }
            return result;
        }
        proof {
            let all = sends.push(this);
            assert(forall|k: int| 0 <= k < sends.len() ==> all[k] == sends[k]);
            sends = all;
        }
    }
}

/// The getFeature request that asks the device at `device_index` for the
/// index of `feature`.
pub open spec fn get_feature_report(device_index: u8, feature: u16) -> Seq<u8> {
    request_report(
        device_index,
        IROOT,
        GET_FEATURE,
        seq![(feature / 256) as u8, (feature % 256) as u8],
    )
}

/// The getFeature request for `feature` to the device at `device_index`.
pub fn get_feature_request(device_index: u8, feature: u16) -> (request: Request)
    ensures
        request@ == get_feature_report(device_index, feature),
{
    let high = (feature / 256) as u8;
    let low = (feature % 256) as u8;
    Request::new(device_index, IROOT, GET_FEATURE, &[high, low])
}

/// The setCurrentHost request that moves the device at `device_index`,
/// whose ChangeHost feature is at `index`, to the zero-based `host`.
pub open spec fn set_host_report(device_index: u8, index: u8, host: u8) -> Seq<u8> {
    request_report(device_index, index, SET_CURRENT_HOST, seq![host])
}

/// The setCurrentHost request to the device at `device_index`, whose
/// ChangeHost feature is at `index`, for the zero-based `host`.
pub fn set_host_request(device_index: u8, index: u8, host: u8) -> (request: Request)
    ensures
        request@ == set_host_report(device_index, index, host),
{
    Request::new(device_index, index, SET_CURRENT_HOST, &[host])
}

/// Whether looking up `feature` on the device at `device_index` with the
/// sends `sends` came to `index`: a call of the getFeature request, whose
/// reply's first parameter is the index.
pub open spec fn lookup_trace<H: Handle>(
    handle: H,
    device_index: u8,
    feature: u16,
    sends: Seq<Exchange>,
    index: Result<u8, Error>,
) -> bool {
    exists|result: Result<Vec<u8>, Error>|
        #[trigger] call_trace(handle, get_feature_report(device_index, feature), sends, result) && match result {
            Ok(p) => index == Ok::<u8, Error>(p@[0]),
            Err(e) => index == Err::<u8, Error>(e),
        }
}

/// The index of `feature` on the device at `device_index`, 0 if it has none:
/// the first parameter of its reply to [`get_feature_request`].
fn feature_index<H: Handle>(handle: &H, device_index: u8, feature: u16) -> (index: Result<
    u8,
    Error,
>)
    ensures
        index matches Err(e) ==> !(e is Unsupported),
        exists|sends: Seq<Exchange>| #[trigger] lookup_trace(*handle, device_index, feature, sends, index),
{
    let request = get_feature_request(device_index, feature);
    let called = call(handle, &request);
    let ghost result = called;
    let ghost sends = choose|sends: Seq<Exchange>| call_trace(*handle, request@, sends, result);
    let index = match called {
        Ok(params) => Ok(params[0]),
        Err(e) => Err(e),
    };
    assert(lookup_trace(*handle, device_index, feature, sends, index));
    index
}

/// The feature index a getFeature reply names, or `Unsupported` where it
/// names none (index 0).
pub fn found_feature(index: u8) -> (found: Result<u8, Error>)
    ensures
        match found {
            Ok(i) => index != 0 && i == index,
            Err(e) => index == 0 && e is Unsupported,
        },
{
    if index == 0 {
        Err(Error::Unsupported)
    } else {
        Ok(index)
    }
}

/// Replies are told apart: a report that answers two requests (with a
/// result or an error) answers requests to the same device index, feature
/// index and function. Feature index FF marks errors, so no request uses it.
pub proof fn lemma_replies_told_apart(
    device_a: u8,
    feature_a: u8,
    function_a: u8,
    params_a: Seq<u8>,
    device_b: u8,
    feature_b: u8,
    function_b: u8,
    params_b: Seq<u8>,
    report: Seq<u8>,
)
    requires
        function_a < 16,
        function_b < 16,
        params_a.len() <= PARAMS_LEN,
        params_b.len() <= PARAMS_LEN,
        feature_a != ERROR_FEATURE_INDEX,
        feature_b != ERROR_FEATURE_INDEX,
        !(reply_to(request_report(device_a, feature_a, function_a, params_a), report) is Unrelated),
        !(reply_to(request_report(device_b, feature_b, function_b, params_b), report) is Unrelated),
    ensures
        device_a == device_b,
        feature_a == feature_b,
        function_a == function_b,
{
    let a = request_report(device_a, feature_a, function_a, params_a);
    let b = request_report(device_b, feature_b, function_b, params_b);
    assert(a[1] == device_a && a[2] == feature_a && a[3] == function_byte(function_a));
    assert(b[1] == device_b && b[2] == feature_b && b[3] == function_byte(function_b));
}

/// Whether `switched` is what a wait for an error after setCurrentHost that
/// came to `waited` means: only an error reply fails the switch.
pub open spec fn switched_from(waited: Result<Option<Vec<u8>>, Error>, switched: Result<(), Error>) -> bool {
    match waited {
        Err(Error::Device(code)) => switched matches Err(Error::Device(c)) && c == code,
        Err(Error::Receiver(code)) => switched matches Err(Error::Receiver(c)) && c == code,
        _ => switched is Ok,
    }
}

/// Once setCurrentHost has been written, the switch fails only on an error
/// reply from the device or from its receiver, and then with that very
/// error. Anything else the wait comes to (silence, an unrelated reply, a
/// read that fails because the device dropped its connection) means the
/// device switched.
pub proof fn lemma_only_error_replies_fail_a_switch(
    waited: Result<Option<Vec<u8>>, Error>,
    switched: Result<(), Error>,
)
    requires
        switched_from(waited, switched),
    ensures
        switched is Err <==> (waited matches Err(Error::Device(_)) || waited matches Err(
            Error::Receiver(_),
        )),
        waited matches Err(Error::Device(code)) ==> switched matches Err(Error::Device(c)) && c
            == code,
        waited matches Err(Error::Receiver(code)) ==> switched matches Err(Error::Receiver(c))
            && c == code,
        waited matches Err(Error::Io(_)) ==> switched is Ok,
        waited is Ok ==> switched is Ok,
{
}

/// What a wait for an error after setCurrentHost comes to: a device that
/// switches drops its connection at once instead of replying, so only an
/// error reply from the device or its receiver means anything.
pub fn host_switched(waited: Result<Option<Vec<u8>>, Error>) -> (switched: Result<(), Error>)
    ensures
        switched_from(waited, switched),
        switched is Err <==> (waited matches Err(Error::Device(_)) || waited matches Err(
            Error::Receiver(_),
        )),
{
    match waited {
        Err(Error::Device(code)) => Err(Error::Device(code)),
        Err(Error::Receiver(code)) => Err(Error::Receiver(code)),
        _ => Ok(()),
    }
}

/// Tells the device at `device_index` behind `handle` to switch to the
/// zero-based `host`: looks up ChangeHost with [`get_feature_request`],
/// which [`found_feature`] judges, then writes [`set_host_request`] with
/// the index the device named, and lets [`host_switched`] judge what the
/// wait that follows brings.
pub fn change_host<H: Handle>(handle: &H, device_index: u8, host: u8) -> (switched: Result<
    (),
    Error,
>)
    ensures
        exists|lookup: Seq<Exchange>, found: Result<u8, Error>, set: Exchange|
            #[trigger] host_change_trace(*handle, device_index, host, lookup, found, set, switched),
{
    let looked = feature_index(handle, device_index, CHANGE_HOST);
    let ghost found = looked;
    let ghost lookup = choose|lookup: Seq<Exchange>|
        lookup_trace(*handle, device_index, CHANGE_HOST, lookup, found);
    let ghost unused = Exchange { request: Seq::empty(), wrote: Ok(()), waited: Ok(None) };
    let index = match looked {
        Ok(index) => index,
        Err(e) => {
            let result = Err(e);
            assert(host_change_trace(*handle, device_index, host, lookup, found, unused, result));
            return result;
        },
    };
    let index = match found_feature(index) {
        Ok(index) => index,
        Err(e) => {
            let result = Err(e);
            assert(host_change_trace(*handle, device_index, host, lookup, found, unused, result));
            return result;
        },
    };
    let set_current_host = set_host_request(device_index, index, host);
    let wrote = handle.write(set_current_host.as_slice());
    let ghost wrote_result = wrote;
    if let Err(e) = wrote {
        let ghost set = Exchange { request: set_current_host@, wrote: wrote_result, waited: Ok(None) };
        let result = Err(Error::Io(e));
        assert(host_change_trace(*handle, device_index, host, lookup, found, set, result));
        return result;
    }
    let waited = await_reply(handle, &set_current_host, ERROR_TIMEOUT_US);
    let ghost set = Exchange { request: set_current_host@, wrote: wrote_result, waited };
    let result = host_switched(waited);
    assert(host_change_trace(*handle, device_index, host, lookup, found, set, result));
    result
}

/// Whether telling the device at `device_index` to switch to `host` came to
/// `switched`, with the sends `lookup` of the ChangeHost lookup, which came
/// to `found`, and the send `set` of setCurrentHost: a failed lookup fails
/// the switch with its error, an index of 0 as unsupported; otherwise the
/// setCurrentHost request for that index and `host` is written, and a
/// failed write, or an error reply in the wait that follows, fails it.
pub open spec fn host_change_trace<H: Handle>(
    handle: H,
    device_index: u8,
    host: u8,
    lookup: Seq<Exchange>,
    found: Result<u8, Error>,
    set: Exchange,
    switched: Result<(), Error>,
) -> bool {
    &&& lookup_trace(handle, device_index, CHANGE_HOST, lookup, found)
    &&& match found {
        Err(e) => switched == Err::<(), Error>(e),
        Ok(i) => if i == 0 {
            switched matches Err(Error::Unsupported)
        } else {
            &&& set.request == set_host_report(device_index, i, host)
            &&& handle.wrote(set.request, set.wrote)
            &&& match set.wrote {
                Err(e) => switched == Err::<(), Error>(Error::Io(e)),
                Ok(()) => wait_shape(set.waited) && awaited(handle, set.request, ERROR_TIMEOUT_US, set.waited)
                    && switched_from(set.waited, switched),
            }
        },
    }
}

/// `bytes` followed by the part of a getDeviceName reply's `params` that is
/// still owed of a name of `length` bytes: all 16 bytes, or the rest.
pub open spec fn with_chunk(bytes: Seq<u8>, params: Seq<u8>, length: nat) -> Seq<u8> {
    if length - bytes.len() < PARAMS_LEN {
        bytes + params.subrange(0, length - bytes.len())
    } else {
        bytes + params.subrange(0, PARAMS_LEN as int)
    }
}

/// Appends to `bytes` what `params`, a getDeviceName reply, carries of a
/// name of `length` bytes.
pub fn append_chunk(bytes: &mut Vec<u8>, params: &[u8], length: usize)
    requires
        params@.len() == PARAMS_LEN,
        old(bytes)@.len() < length,
    ensures
        final(bytes)@ == with_chunk(old(bytes)@, params@, length as nat),
{
    let received = bytes.len();
    let take = if length - received < PARAMS_LEN {
        length - received
    } else {
        PARAMS_LEN
    };
    let mut i: usize = 0;
    while i < take
        invariant
            i <= take,
            take <= PARAMS_LEN,
            params@.len() == PARAMS_LEN,
            received == old(bytes)@.len(),
            take == (if length - received < PARAMS_LEN {
                length - received
            } else {
                PARAMS_LEN as int
            }),
            bytes@ == old(bytes)@ + params@.subrange(0, i as int),
        decreases take - i,
    {
        bytes.push(params[i]);
        i = i + 1;
        assert(bytes@ =~= old(bytes)@ + params@.subrange(0, i as int));
    }
}

/// One call of a request, as the handle answered it: its sends, and what
/// it came to.
pub struct CallView {
    pub sends: Seq<Exchange>,
    pub result: Result<Vec<u8>, Error>,
}

/// The bytes of a name of `length` bytes that the getDeviceName calls
/// `parts` brought, each part appended by [`with_chunk`].
pub open spec fn name_bytes(parts: Seq<CallView>, length: nat) -> Seq<u8>
    decreases parts.len(),
{
    if parts.len() == 0 {
        seq![]
    } else {
        let before = name_bytes(parts.drop_last(), length);
        match parts.last().result {
            Ok(p) => with_chunk(before, p@, length),
            Err(_) => before,
        }
    }
}

/// Whether `parts` are the getDeviceName calls for a name of `length`
/// bytes, of the feature at `index` of the device at `device_index`: each
/// asks for the part at the offset of the bytes received before it, and
/// another comes only after one that succeeded and left bytes owed.
pub open spec fn name_parts<H: Handle>(
    handle: H,device_index: u8, index: u8, length: nat, parts: Seq<CallView>) -> bool {
    &&& parts.len() >= 1
    &&& forall|k: int|
        #![trigger parts[k]]
        0 <= k < parts.len() ==> call_trace(handle, 
            request_report(
                device_index,
                index,
                GET_NAME,
                seq![name_bytes(parts.take(k), length).len() as u8],
            ),
            parts[k].sends,
            parts[k].result,
        ) && name_bytes(parts.take(k), length).len() < length
    &&& forall|k: int| #![trigger parts[k]] 0 <= k < parts.len() - 1 ==> parts[k].result is Ok
}

/// Whether asking the device at `device_index` for its name came to
/// `name`, with the sends `lookup` of the DeviceName lookup, which came to
/// `found`, the getDeviceNameCount call `length_call`, and the
/// getDeviceName calls `parts`: a failed call fails with its error; an index
/// or a length of 0 means no name; otherwise the name is the text of the
/// bytes the parts brought, which are their own characters where ASCII.
pub open spec fn name_trace<H: Handle>(
    handle: H,
    device_index: u8,
    lookup: Seq<Exchange>,
    found: Result<u8, Error>,
    length_call: CallView,
    parts: Seq<CallView>,
    name: Result<Option<String>, Error>,
) -> bool {
    &&& lookup_trace(handle, device_index, DEVICE_NAME, lookup, found)
    &&& match found {
        Err(e) => name == Err::<Option<String>, Error>(e),
        Ok(i) => if i == 0 {
            name == Ok::<Option<String>, Error>(None)
        } else {
            &&& call_trace(handle, 
                request_report(device_index, i, GET_NAME_LENGTH, seq![]),
                length_call.sends,
                length_call.result,
            )
            &&& match length_call.result {
                Err(e) => name == Err::<Option<String>, Error>(e),
                Ok(p) => if p@[0] == 0 {
                    name == Ok::<Option<String>, Error>(None)
                } else {
                    &&& name_parts(handle, device_index, i, p@[0] as nat, parts)
                    &&& match parts.last().result {
                        Err(e) => name == Err::<Option<String>, Error>(e),
                        Ok(_) => {
                            let bytes = name_bytes(parts, p@[0] as nat);
                            &&& bytes.len() == p@[0]
                            &&& name matches Ok(Some(n))
                            &&& n@ == utf8_lossy(bytes)
                            &&& all_ascii(bytes) ==> n@ == ascii_chars(bytes)
                        },
                    }
                },
            }
        },
    }
}

/// Whether `parts` are getDeviceName calls that all succeeded, each at the
/// offset of the bytes received before it, with bytes still owed then.
pub open spec fn parts_so_far<H: Handle>(
    handle: H,device_index: u8, index: u8, length: nat, parts: Seq<CallView>) -> bool {
    forall|k: int|
        #![trigger parts[k]]
        0 <= k < parts.len() ==> call_trace(handle, 
            request_report(
                device_index,
                index,
                GET_NAME,
                seq![name_bytes(parts.take(k), length).len() as u8],
            ),
            parts[k].sends,
            parts[k].result,
        ) && name_bytes(parts.take(k), length).len() < length && parts[k].result is Ok
}

/// A call at the offset of the bytes received so far, while bytes are still
/// owed, extends the parts: they still hold if it succeeded, and they are
/// the name's calls if it was the first or it failed.
proof fn lemma_next_part<H: Handle>(
    handle: H,
    device_index: u8,
    index: u8,
    length: nat,
    parts: Seq<CallView>,
    part: CallView,
)
    requires
        parts_so_far(handle, device_index, index, length, parts),
        name_bytes(parts, length).len() < length,
        call_trace(handle, 
            request_report(
                device_index,
                index,
                GET_NAME,
                seq![name_bytes(parts, length).len() as u8],
            ),
            part.sends,
            part.result,
        ),
    ensures
        part.result is Ok ==> parts_so_far(handle, device_index, index, length, parts.push(part)),
        name_parts(handle, device_index, index, length, parts.push(part)),
        name_bytes(parts.push(part), length) == match part.result {
            Ok(p) => with_chunk(name_bytes(parts, length), p@, length),
            Err(_) => name_bytes(parts, length),
        },
{
    let all = parts.push(part);
    lemma_name_bytes_push(parts, part, length);
    assert(all[parts.len() as int] == part);
    assert forall|k: int| 0 <= k < parts.len() implies all[k] == parts[k] by {}
    assert forall|k: int|
        #![trigger all[k]]
        0 <= k < all.len() implies call_trace(handle, 
            request_report(
                device_index,
                index,
                GET_NAME,
                seq![name_bytes(all.take(k), length).len() as u8],
            ),
            all[k].sends,
            all[k].result,
        ) && name_bytes(all.take(k), length).len() < length by {
        if k < parts.len() {
            assert(all[k] == parts[k]);
            assert(all.take(k) == parts.take(k));
        } else {
            assert(all.take(k) == parts.take(parts.len() as int));
        }
    }
}

/// The bytes of the first parts stay as more parts come.
proof fn lemma_name_bytes_push(parts: Seq<CallView>, part: CallView, length: nat)
    ensures
        forall|k: int|
            0 <= k <= parts.len() ==> #[trigger] parts.push(part).take(k) == parts.take(k),
        parts.push(part).drop_last() == parts,
        parts.take(parts.len() as int) == parts,
{
    assert(parts.push(part).drop_last() =~= parts);
    assert(parts.take(parts.len() as int) =~= parts);
    assert forall|k: int| 0 <= k <= parts.len() implies #[trigger] parts.push(part).take(k)
        == parts.take(k) by {
        assert(parts.push(part).take(k) =~= parts.take(k));
    }
}

/// The device's name, or `None` if it does not tell it: it has no
/// DeviceName feature, or a name of length 0. The name is asked for in
/// parts, each at the offset of the bytes received so far, and put together
/// by [`append_chunk`].
pub fn device_name<H: Handle>(handle: &H, device_index: u8) -> (name: Result<
    Option<String>,
    Error,
>)
    ensures
        name matches Err(e) ==> !(e is Unsupported),
        exists|
            lookup: Seq<Exchange>,
            found: Result<u8, Error>,
            length_call: CallView,
            parts: Seq<CallView>,
        | #[trigger] name_trace(*handle, device_index, lookup, found, length_call, parts, name),
{
    let looked = feature_index(handle, device_index, DEVICE_NAME);
    let ghost found = looked;
    let ghost lookup = choose|lookup: Seq<Exchange>|
        lookup_trace(*handle, device_index, DEVICE_NAME, lookup, found);
    let ghost no_call = CallView { sends: Seq::empty(), result: Err(Error::NoReply) };
    let ghost no_parts: Seq<CallView> = Seq::empty();
    let index = match looked {
        Ok(index) => index,
        Err(e) => {
            let result = Err(e);
            assert(name_trace(*handle, device_index, lookup, found, no_call, no_parts, result));
            return result;
        },
    };
    if index == 0 {
        let result = Ok(None);
        assert(name_trace(*handle, device_index, lookup, found, no_call, no_parts, result));
        return result;
    }
    let length_request = Request::new(device_index, index, GET_NAME_LENGTH, &[]);
    assert(length_request@ == request_report(device_index, index, GET_NAME_LENGTH, seq![]));
    let told = call(handle, &length_request);
    let ghost told_result = told;
    let ghost length_call = CallView {
        sends: choose|sends: Seq<Exchange>| call_trace(*handle, length_request@, sends, told_result),
        result: told_result,
    };
    let length_byte = match told {
        Ok(params) => params[0],
        Err(e) => {
            let result = Err(e);
            assert(name_trace(*handle, device_index, lookup, found, length_call, no_parts, result));
            return result;
        },
    };
    if length_byte == 0 {
        let result = Ok(None);
        assert(name_trace(*handle, device_index, lookup, found, length_call, no_parts, result));
        return result;
    }
    let length = length_byte as usize;
    let ghost len = length as nat;
    let mut bytes: Vec<u8> = Vec::new();
    let ghost mut parts: Seq<CallView> = Seq::empty();
    while bytes.len() < length
        invariant
            bytes@.len() <= length,
            1 <= length <= 255,
            len == length,
            bytes@ == name_bytes(parts, len),
            parts.len() == 0 ==> bytes@.len() == 0,
            parts.len() > 0 ==> name_parts(*handle, device_index, index, len, parts),
            parts_so_far(*handle, device_index, index, len, parts),
            found == Ok::<u8, Error>(index),
            index != 0,
            lookup_trace(*handle, device_index, DEVICE_NAME, lookup, found),
            call_trace(*handle, 
                request_report(device_index, index, GET_NAME_LENGTH, seq![]),
                length_call.sends,
                length_call.result,
            ),
            length_call.result matches Ok(p) && p@[0] == length_byte,
            length == length_byte,
        decreases length - bytes@.len(),
    {
        let request = Request::new(device_index, index, GET_NAME, &[bytes.len() as u8]);
        assert(request@ == request_report(
            device_index,
            index,
            GET_NAME,
            seq![name_bytes(parts, len).len() as u8],
        ));
        let called = call(handle, &request);
        let ghost answer = called;
        let ghost part = CallView {
            sends: choose|sends: Seq<Exchange>| call_trace(*handle, request@, sends, answer),
            result: answer,
        };
        proof {
            lemma_next_part(*handle, device_index, index, len, parts, part);
        }
        let params = match called {
            Ok(params) => params,
            Err(e) => {
                let result = Err(e);
                assert(name_trace(*handle, 
                    device_index,
                    lookup,
                    found,
                    length_call,
                    parts.push(part),
                    result,
                ));
                return result;
            },
        };
        append_chunk(&mut bytes, params.as_slice(), length);
        proof {
            parts = parts.push(part);
        }
    }
    let text = text_from_bytes(bytes.as_slice());
    let result = Ok(Some(text));
    assert(name_trace(*handle, device_index, lookup, found, length_call, parts, result));
    result
}

/// The hosts that a getHostInfo reply's `params` tell: their count, and the
/// zero-based one the device is on.
pub fn hosts_from(params: &[u8]) -> (hosts: Hosts)
    requires
        params@.len() == PARAMS_LEN,
    ensures
        hosts.count == params@[0],
        hosts.current == params@[1],
{
    Hosts { count: params[0], current: params[1] }
}

/// Whether asking the device at `device_index` for its hosts came to
/// `hosts`, with the sends `lookup` of the ChangeHost lookup, which came to
/// `found`, and the sends `info` of getHostInfo: a failed lookup fails with
/// its error, an index of 0 means no Easy-Switch; otherwise the getHostInfo
/// call at that index fails with its error or gives the hosts its reply
/// tells.
pub open spec fn hosts_trace<H: Handle>(
    handle: H,
    device_index: u8,
    lookup: Seq<Exchange>,
    found: Result<u8, Error>,
    info: Seq<Exchange>,
    hosts: Result<Option<Hosts>, Error>,
) -> bool {
    &&& lookup_trace(handle, device_index, CHANGE_HOST, lookup, found)
    &&& match found {
        Err(e) => hosts == Err::<Option<Hosts>, Error>(e),
        Ok(i) => if i == 0 {
            hosts == Ok::<Option<Hosts>, Error>(None)
        } else {
            exists|result: Result<Vec<u8>, Error>|
                #[trigger] call_trace(handle, 
                    request_report(device_index, i, GET_HOST_INFO, seq![]),
                    info,
                    result,
                ) && match result {
                    Ok(p) => hosts == Ok::<Option<Hosts>, Error>(
                        Some(Hosts { count: p@[0], current: p@[1] }),
                    ),
                    Err(e) => hosts == Err::<Option<Hosts>, Error>(e),
                }
        },
    }
}

/// The device's Easy-Switch hosts, or `None` if it has no Easy-Switch
/// (ChangeHost is at index 0): its reply to getHostInfo, read by
/// [`hosts_from`].
pub fn hosts<H: Handle>(handle: &H, device_index: u8) -> (hosts: Result<Option<Hosts>, Error>)
    ensures
        hosts matches Err(e) ==> !(e is Unsupported),
        exists|lookup: Seq<Exchange>, found: Result<u8, Error>, info: Seq<Exchange>|
            #[trigger] hosts_trace(*handle, device_index, lookup, found, info, hosts),
{
    let looked = feature_index(handle, device_index, CHANGE_HOST);
    let ghost found = looked;
    let ghost lookup = choose|lookup: Seq<Exchange>|
        lookup_trace(*handle, device_index, CHANGE_HOST, lookup, found);
    let ghost none: Seq<Exchange> = Seq::empty();
    let index = match looked {
        Ok(index) => index,
        Err(e) => {
            let result = Err(e);
            assert(hosts_trace(*handle, device_index, lookup, found, none, result));
            return result;
        },
    };
    if index == 0 {
        let result = Ok(None);
        assert(hosts_trace(*handle, device_index, lookup, found, none, result));
        return result;
    }
    let request = Request::new(device_index, index, GET_HOST_INFO, &[]);
    assert(request@ == request_report(device_index, index, GET_HOST_INFO, seq![]));
    let called = call(handle, &request);
    let ghost answer = called;
    let ghost info = choose|info: Seq<Exchange>| call_trace(*handle, request@, info, answer);
    assert(call_trace(*handle, request_report(device_index, index, GET_HOST_INFO, seq![]), info, answer));
    let result = match called {
        Ok(params) => {
            let told = hosts_from(params.as_slice());
            assert(told == Hosts { count: params@[0], current: params@[1] });
            Ok(Some(told))
        },
        Err(e) => Err(e),
    };
    assert(hosts_trace(*handle, device_index, lookup, found, info, result));
    result
}

/// Whether every byte is ASCII.
pub open spec fn all_ascii(bytes: Seq<u8>) -> bool {
    forall|i: int| 0 <= i < bytes.len() ==> #[trigger] bytes[i] < 128
}

/// The characters of ASCII bytes.
pub open spec fn ascii_chars(bytes: Seq<u8>) -> Seq<char> {
    bytes.map_values(|b: u8| b as char)
}

/// The characters that `String::from_utf8_lossy` decodes from `bytes`: the
/// text they encode as UTF-8, each invalid sequence replaced by U+FFFD.
pub uninterp spec fn utf8_lossy(bytes: Seq<u8>) -> Seq<char>;

/// `String::from_utf8_lossy`, made an owned `String`: its characters are
/// [`utf8_lossy`] of `bytes`, and ASCII bytes are their own characters.
#[verifier::external_body]
fn text_from_bytes(bytes: &[u8]) -> (text: String)
    ensures
        text@ == utf8_lossy(bytes@),
        all_ascii(bytes@) ==> text@ == ascii_chars(bytes@),
{
    String::from_utf8_lossy(bytes).into_owned()
}

} // verus!
