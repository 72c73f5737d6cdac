//! The configuration: timing, the channel of each edge, and the devices to
//! switch. The app reads it from TOML and hands it over as these values.

use vstd::prelude::*;

use crate::desktop::Edge;
use crate::text::{debug_quoted, debug_str, decimal, digit_char, push_decimal};

verus! {

/// The whole configuration.
#[derive(Debug, PartialEq)]
pub struct Config {
    /// How long the cursor has to rest at an edge before switching, in
    /// milliseconds.
    pub dwell: u64,
    /// How long after a switch the next one may start at the earliest, in
    /// milliseconds.
    pub cooldown: u64,
    pub edges: Edges,
    /// Switched in the order listed.
    pub devices: Vec<Device>,
}

/// The channel each edge switches to; an edge without one does nothing.
#[derive(Clone, Copy, Debug, PartialEq)]
pub struct Edges {
    pub left: Option<Channel>,
    pub right: Option<Channel>,
    pub top: Option<Channel>,
    pub bottom: Option<Channel>,
}

/// A device's HID++ interface, as `edgehop --list` shows it.
#[derive(Debug, PartialEq, Eq)]
pub struct Device {
    /// Only used in log messages.
    pub name: String,
    pub vendor_id: u16,
    pub product_id: u16,
    pub usage_page: u16,
    pub usage: u16,
    /// 0xFF for a device connected directly (Bluetooth or USB cable), or the
    /// device's slot (1-6) on a Unifying or Bolt receiver.
    pub device_index: u8,
}

/// A device as plain values.
pub struct DeviceView {
    pub name: Seq<char>,
    pub vendor_id: u16,
    pub product_id: u16,
    pub usage_page: u16,
    pub usage: u16,
    pub device_index: u8,
}

impl View for Device {
    type V = DeviceView;

    open spec fn view(&self) -> DeviceView {
        DeviceView {
            name: self.name@,
            vendor_id: self.vendor_id,
            product_id: self.product_id,
            usage_page: self.usage_page,
            usage: self.usage,
            device_index: self.device_index,
        }
    }
}

impl Device {
    /// A copy of the device.
    pub fn duplicate(&self) -> (copy: Device)
        ensures
            copy@ == self@,
    {
        Device {
            name: self.name.clone(),
            vendor_id: self.vendor_id,
            product_id: self.product_id,
            usage_page: self.usage_page,
            usage: self.usage,
            device_index: self.device_index,
        }
    }
}

/// The views of `devices`.
pub open spec fn device_views(devices: Seq<Device>) -> Seq<DeviceView> {
    devices.map_values(|d: Device| d@)
}

/// A copy of `devices`.
pub fn copy_devices(devices: &[Device]) -> (copy: Vec<Device>)
    ensures
        device_views(copy@) == device_views(devices@),
{
    let mut copy: Vec<Device> = Vec::new();
    let mut j: usize = 0;
    while j < devices.len()
        invariant
            j <= devices@.len(),
            copy@.len() == j,
            device_views(copy@) =~= device_views(devices@).subrange(0, j as int),
        decreases devices@.len() - j,
    {
        let ghost before = copy@;
        copy.push(devices[j].duplicate());
        assert(copy@ == before.push(copy@[j as int]));
        assert(device_views(copy@) =~= device_views(before).push(devices@[j as int]@));
        j = j + 1;
        assert(device_views(copy@) =~= device_views(devices@).subrange(0, j as int));
    }
    assert(device_views(devices@).subrange(0, devices@.len() as int) =~= device_views(devices@));
    copy
}

/// An Easy-Switch channel, numbered 1-3 as printed on the device.
#[derive(Clone, Copy, Debug, PartialEq, Eq)]
pub struct Channel(u8);

/// The default dwell time, in milliseconds.
pub const DEFAULT_DWELL: u64 = 250;

/// The default cooldown, in milliseconds.
pub const DEFAULT_COOLDOWN: u64 = 2000;

/// The default dwell time: 250 ms.
pub fn default_dwell() -> (ms: u64)
    ensures
        ms == DEFAULT_DWELL,
{
    DEFAULT_DWELL
}

/// The default cooldown: 2 s.
pub fn default_cooldown() -> (ms: u64)
    ensures
        ms == DEFAULT_COOLDOWN,
{
    DEFAULT_COOLDOWN
}

impl Channel {
    #[verifier::type_invariant]
    spec fn in_range(self) -> bool {
        1 <= self.0 <= 3
    }

    /// The channel's number, 1-3.
    pub closed spec fn number(self) -> u8 {
        self.0
    }

    /// The channel numbered `number`, or the message that explains why there
    /// is none.
    pub fn new(number: u8) -> (channel: Result<Channel, String>)
        ensures
            match channel {
                Ok(c) => 1 <= number <= 3 && c.number() == number,
                Err(message) => !(1 <= number <= 3) && message@ == out_of_range_message(number),
            },
    {
        if 1 <= number && number <= 3 {
            Ok(Channel(number))
        } else {
            let mut message = "Easy-Switch channel must be 1, 2 or 3, not ".to_owned();
            push_decimal(&mut message, number as u64);
            Err(message)
        }
    }

    /// Channels with the same number are the same channel.
    pub proof fn lemma_same_number(a: Channel, b: Channel)
        requires
            a.number() == b.number(),
        ensures
            a == b,
    {
    }

    /// The channel's number, as printed on the device.
    pub fn get(self) -> (number: u8)
        ensures
            number == self.number(),
            1 <= number <= 3,
    {
        proof {
            use_type_invariant(self);
        }
        self.0
    }

    /// The zero-based host number HID++ uses on the wire.
    pub fn host_index(self) -> (host: u8)
        ensures
            host == self.number() - 1,
    {
        proof {
            use_type_invariant(self);
        }
        self.0 - 1
    }

    /// The channel's number, as text.
    pub fn to_string(&self) -> (text: String)
        ensures
            text@ == decimal(self.number() as nat),
    {
        let mut text = String::new();
        push_decimal(&mut text, self.get() as u64);
        text
    }

    /// The channel written as `text` on the command line, as Rust reads a
    /// `u8`: an optional `+` and decimal digits.
    pub fn parse(text: &str) -> (channel: Result<Channel, String>)
        ensures
            parsed_channel(text@, channel),
    {
        match parse_decimal_u8(text) {
            Some(number) => Channel::new(number),
            None => {
                let mut message = "Easy-Switch channel must be 1, 2 or 3, not ".to_owned();
                let quoted = debug_str(text);
                message.append(quoted.as_str());
                Err(message)
            },
        }
    }
}

impl core::str::FromStr for Channel {
    type Err = String;

    fn from_str(text: &str) -> (channel: Result<Channel, String>)
        ensures
            parsed_channel(text@, channel),
    {
        Channel::parse(text)
    }
}

/// Whether `channel` is what reading `text` as a channel gives: the channel
/// numbered as Rust reads a `u8` from `text`, or the message that explains
/// why there is none.
pub open spec fn parsed_channel(text: Seq<char>, channel: Result<Channel, String>) -> bool {
    match channel {
        Ok(c) => 1 <= c.number() <= 3 && parse_u8(text) == Some(c.number()),
        Err(message) => match parse_u8(text) {
            Some(n) => !(1 <= n <= 3) && message@ == out_of_range_message(n),
            None => message@ == unreadable_message(text),
        },
    }
}

/// A number written out in decimal reads back as the same number; so does
/// a channel's number, which is how a channel is shown.
pub proof fn lemma_decimal_reads_back(number: u8)
    ensures
        parse_u8(decimal(number as nat)) == Some(number),
{
    let n = number as nat;
    let text = decimal(n);
    let one = text.drop_last();
    lemma_digit(n % 10);
    if n < 10 {
        assert(one =~= Seq::<char>::empty());
    } else if n < 100 {
        lemma_digit(n / 10);
        assert(one == decimal(n / 10));
        assert(one.drop_last() =~= Seq::<char>::empty());
    } else {
        assert(n / 10 / 10 == n / 100);
        lemma_digit(n / 100);
        lemma_digit(n / 10 % 10);
        assert(one == decimal(n / 10));
        assert(one.drop_last() == decimal(n / 100));
        assert(one.drop_last().drop_last() =~= Seq::<char>::empty());
    }
    if n < 10 {
        assert(digits_value(text) == n);
    } else if n < 100 {
        assert(digits_value(one) == n / 10);
        assert(digits_value(text) == n);
    } else {
        assert(digits_value(one.drop_last()) == n / 100);
        assert(digits_value(one) == n / 10);
        assert(digits_value(text) == n);
    }
    assert(unsigned_digits(text) == text);
    assert(forall|i: int| 0 <= i < text.len() ==> is_digit(#[trigger] text[i]));
}

/// A single decimal digit is written as one character, and reads back as
/// its value.
proof fn lemma_digit(d: nat)
    requires
        d < 10,
    ensures
        decimal(d) == seq![digit_char(d)],
        is_digit(digit_char(d)),
        digit_char(d) as nat == 48 + d,
        digits_value(seq![digit_char(d)]) == d,
{
    let text = seq![digit_char(d)];
    assert(text.drop_last() =~= Seq::<char>::empty());
    assert(digits_value(text.drop_last()) == 0);
    assert(text.last() == digit_char(d));
    assert(text.last() as nat == 48 + d);
}

/// The message for a channel number out of range.
pub open spec fn out_of_range_message(number: u8) -> Seq<char> {
    "Easy-Switch channel must be 1, 2 or 3, not "@ + decimal(number as nat)
}

/// The message for a channel that is not a number.
pub open spec fn unreadable_message(text: Seq<char>) -> Seq<char> {
    "Easy-Switch channel must be 1, 2 or 3, not "@ + debug_quoted(text)
}

/// Whether `c` is an ASCII decimal digit.
pub open spec fn is_digit(c: char) -> bool {
    '0' <= c <= '9'
}

/// The value of a string of decimal digits.
pub open spec fn digits_value(digits: Seq<char>) -> nat
    decreases digits.len(),
{
    if digits.len() == 0 {
        0
    } else {
        digits_value(digits.drop_last()) * 10 + (digits.last() as nat - 48) as nat
    }
}

/// The digits of `text` past an optional leading `+`.
pub open spec fn unsigned_digits(text: Seq<char>) -> Seq<char> {
    if text.len() > 0 && text[0] == '+' {
        text.drop_first()
    } else {
        text
    }
}

/// `digits` as a `u8`, if they are one or more decimal digits whose value
/// fits.
pub open spec fn digits_u8(digits: Seq<char>) -> Option<u8> {
    if digits.len() > 0 && (forall|i: int| 0 <= i < digits.len() ==> is_digit(#[trigger] digits[i]))
        && digits_value(digits) <= 255 {
        Some(digits_value(digits) as u8)
    } else {
        None
    }
}

/// `text` as Rust's `str::parse::<u8>` reads it: an optional `+`, then one
/// or more decimal digits whose value fits in a `u8`.
pub open spec fn parse_u8(text: Seq<char>) -> Option<u8> {
    digits_u8(unsigned_digits(text))
}

fn parse_decimal_u8(text: &str) -> (number: Option<u8>)
    ensures
        number == parse_u8(text@),
{
    let len = text.unicode_len();
    let start: usize = if len > 0 && text.get_char(0) == '+' {
        1
    } else {
        0
    };
    let ghost digits = unsigned_digits(text@);
    assert(digits =~= text@.subrange(start as int, len as int));
    if start == len {
        assert(digits.len() == 0);
        return None;
    }
    // The value so far, capped at 256.
    let mut value: u32 = 0;
    let mut i = start;
    while i < len
        invariant
            start <= i <= len,
            len == text@.len(),
            digits =~= text@.subrange(start as int, len as int),
            digits == unsigned_digits(text@),
            forall|j: int| start <= j < i ==> is_digit(#[trigger] text@[j]),
            value == if digits_value(text@.subrange(start as int, i as int)) < 256 {
                digits_value(text@.subrange(start as int, i as int))
            } else {
                256
            },
        decreases len - i,
    {
        let c = text.get_char(i);
        if !('0' <= c && c <= '9') {
            assert(digits[i - start] == c);
            assert(!is_digit(digits[i - start]));
            assert(!(forall|j: int| 0 <= j < digits.len() ==> is_digit(#[trigger] digits[j])));
            return None;
        }
        let d = (c as u32) - 48;
        let ghost prefix = text@.subrange(start as int, i as int);
        assert(text@.subrange(start as int, i + 1) =~= prefix.push(c));
        assert(prefix.push(c).drop_last() =~= prefix);
        let next = value * 10 + d;
        value = if next < 256 {
            next
        } else {
            256
        };
        i = i + 1;
    }
    assert(text@.subrange(start as int, len as int) =~= digits);
    if value < 256 {
        Some(value as u8)
    } else {
        None
    }
}

/// The edges that have a channel, in the order left, right, top, bottom.
pub open spec fn configured_edges(edges: Edges) -> Seq<Edge> {
    (if edges.left is Some {
        seq![Edge::Left]
    } else {
        seq![]
    }) + (if edges.right is Some {
        seq![Edge::Right]
    } else {
        seq![]
    }) + (if edges.top is Some {
        seq![Edge::Top]
    } else {
        seq![]
    }) + (if edges.bottom is Some {
        seq![Edge::Bottom]
    } else {
        seq![]
    })
}

/// The channel of `edge`.
pub open spec fn edge_channel(edges: Edges, edge: Edge) -> Option<Channel> {
    match edge {
        Edge::Left => edges.left,
        Edge::Right => edges.right,
        Edge::Top => edges.top,
        Edge::Bottom => edges.bottom,
    }
}

/// The channel of each edge is the one configured for that very edge,
/// whatever the other edges hold.
pub proof fn lemma_each_edge_has_its_own_channel(edges: Edges, other: Edges)
    ensures
        edge_channel(edges, Edge::Left) == edges.left,
        edge_channel(edges, Edge::Right) == edges.right,
        edge_channel(edges, Edge::Top) == edges.top,
        edge_channel(edges, Edge::Bottom) == edges.bottom,
        other.left == edges.left ==> edge_channel(other, Edge::Left) == edge_channel(
            edges,
            Edge::Left,
        ),
        other.right == edges.right ==> edge_channel(other, Edge::Right) == edge_channel(
            edges,
            Edge::Right,
        ),
        other.top == edges.top ==> edge_channel(other, Edge::Top) == edge_channel(edges, Edge::Top),
        other.bottom == edges.bottom ==> edge_channel(other, Edge::Bottom) == edge_channel(
            edges,
            Edge::Bottom,
        ),
{
}

/// The configured edges are exactly those that have a channel, each once,
/// in the order left, right, top, bottom.
pub proof fn lemma_configured_are_the_edges_with_a_channel(edges: Edges)
    ensures
        configured_edges(edges).contains(Edge::Left) <==> edges.left is Some,
        configured_edges(edges).contains(Edge::Right) <==> edges.right is Some,
        configured_edges(edges).contains(Edge::Top) <==> edges.top is Some,
        configured_edges(edges).contains(Edge::Bottom) <==> edges.bottom is Some,
        configured_edges(edges).no_duplicates(),
        forall|i: int, j: int|
            0 <= i < j < configured_edges(edges).len() ==> edge_rank(
                #[trigger] configured_edges(edges)[i],
            ) < edge_rank(#[trigger] configured_edges(edges)[j]),
{
    let l: Seq<Edge> = if edges.left is Some { seq![Edge::Left] } else { seq![] };
    let r: Seq<Edge> = if edges.right is Some { seq![Edge::Right] } else { seq![] };
    let t: Seq<Edge> = if edges.top is Some { seq![Edge::Top] } else { seq![] };
    let b: Seq<Edge> = if edges.bottom is Some { seq![Edge::Bottom] } else { seq![] };
    let all = configured_edges(edges);
    assert(all == l + r + t + b);
    assert forall|e: Edge|
        (#[trigger] l.contains(e) <==> (edges.left is Some && e == Edge::Left)) && (r.contains(e)
            <==> (edges.right is Some && e == Edge::Right)) && (t.contains(e) <==> (edges.top is Some
            && e == Edge::Top)) && (b.contains(e) <==> (edges.bottom is Some && e == Edge::Bottom)) by {
        if l.contains(e) {
            let k = choose|k: int| 0 <= k < l.len() && l[k] == e;
        }
        if r.contains(e) {
            let k = choose|k: int| 0 <= k < r.len() && r[k] == e;
        }
        if t.contains(e) {
            let k = choose|k: int| 0 <= k < t.len() && t[k] == e;
        }
        if b.contains(e) {
            let k = choose|k: int| 0 <= k < b.len() && b[k] == e;
        }
        if edges.left is Some && e == Edge::Left {
            assert(l[0] == e);
        }
        if edges.right is Some && e == Edge::Right {
            assert(r[0] == e);
        }
        if edges.top is Some && e == Edge::Top {
            assert(t[0] == e);
        }
        if edges.bottom is Some && e == Edge::Bottom {
            assert(b[0] == e);
        }
    }
    assert forall|e: Edge| #[trigger] all.contains(e) <==> (l.contains(e) || r.contains(e) || t.contains(e)
        || b.contains(e)) by {
        if all.contains(e) {
            let k = choose|k: int| 0 <= k < all.len() && all[k] == e;
            if k < l.len() {
                assert(l[k] == e);
            } else if k < l.len() + r.len() {
                assert(r[k - l.len()] == e);
            } else if k < l.len() + r.len() + t.len() {
                assert(t[k - l.len() - r.len()] == e);
            } else {
                assert(b[k - l.len() - r.len() - t.len()] == e);
            }
        }
        if l.contains(e) {
            assert(all[0] == e);
        }
        if r.contains(e) {
            assert(all[l.len() as int] == e);
        }
        if t.contains(e) {
            assert(all[(l.len() + r.len()) as int] == e);
        }
        if b.contains(e) {
            assert(all[(l.len() + r.len() + t.len()) as int] == e);
        }
    }
    assert(all.contains(Edge::Left) <==> l.contains(Edge::Left) || r.contains(Edge::Left) || t.contains(
        Edge::Left,
    ) || b.contains(Edge::Left));
    assert(all.contains(Edge::Right) <==> l.contains(Edge::Right) || r.contains(Edge::Right)
        || t.contains(Edge::Right) || b.contains(Edge::Right));
    assert(all.contains(Edge::Top) <==> l.contains(Edge::Top) || r.contains(Edge::Top) || t.contains(
        Edge::Top,
    ) || b.contains(Edge::Top));
    assert(all.contains(Edge::Bottom) <==> l.contains(Edge::Bottom) || r.contains(Edge::Bottom)
        || t.contains(Edge::Bottom) || b.contains(Edge::Bottom));
    assert forall|i: int, j: int| 0 <= i < j < all.len() implies edge_rank(#[trigger] all[i]) < edge_rank(
        #[trigger] all[j],
    ) by {
        assert(forall|k: int| 0 <= k < l.len() ==> edge_rank(#[trigger] all[k]) == 0);
        assert(forall|k: int| l.len() <= k < l.len() + r.len() ==> edge_rank(#[trigger] all[k]) == 1);
        assert(forall|k: int|
            l.len() + r.len() <= k < l.len() + r.len() + t.len() ==> edge_rank(#[trigger] all[k]) == 2);
        assert(forall|k: int|
            l.len() + r.len() + t.len() <= k < all.len() ==> edge_rank(#[trigger] all[k]) == 3);
    }
    assert forall|i: int, j: int| 0 <= i < all.len() && 0 <= j < all.len() && i != j implies all[i]
        != all[j] by {
        if i < j {
            assert(edge_rank(all[i]) < edge_rank(all[j]));
        } else {
            assert(edge_rank(all[j]) < edge_rank(all[i]));
        }
    }
}

/// Where `edge` comes in the order left, right, top, bottom.
pub open spec fn edge_rank(edge: Edge) -> int {
    match edge {
        Edge::Left => 0,
        Edge::Right => 1,
        Edge::Top => 2,
        Edge::Bottom => 3,
    }
}

impl Edges {
    /// Edges without a channel.
    pub fn none() -> (edges: Edges)
        ensures
            edges.left is None && edges.right is None && edges.top is None && edges.bottom is None,
    {
        Edges { left: None, right: None, top: None, bottom: None }
    }

    /// The channel of `edge`, if it has one.
    pub fn channel(&self, edge: Edge) -> (channel: Option<Channel>)
        ensures
            channel == edge_channel(*self, edge),
    {
        match edge {
            Edge::Left => self.left,
            Edge::Right => self.right,
            Edge::Top => self.top,
            Edge::Bottom => self.bottom,
        }
    }

    /// The edges that have a channel.
    pub fn configured(&self) -> (edges: Vec<Edge>)
        ensures
            edges@ == configured_edges(*self),
    {
        let mut edges = Vec::new();
        if self.left.is_some() {
            edges.push(Edge::Left);
        }
        if self.right.is_some() {
            edges.push(Edge::Right);
        }
        if self.top.is_some() {
            edges.push(Edge::Top);
        }
        if self.bottom.is_some() {
            edges.push(Edge::Bottom);
        }
        assert(edges@ =~= configured_edges(*self));
        edges
    }
}

impl Default for Edges {
    fn default() -> (edges: Edges)
        ensures
            edges.left is None && edges.right is None && edges.top is None && edges.bottom is None,
    {
        Edges::none()
    }
}

impl Config {
    /// Accepts a configuration read from the file at `path`, which must list
    /// at least one device.
    pub fn checked(self, path: &str) -> (config: Result<Config, String>)
        ensures
            match config {
                Ok(c) => c == self && self.devices@.len() > 0,
                Err(message) => self.devices@.len() == 0 && message@ == path@
                    + " lists no devices"@,
            },
    {
        if self.devices.len() == 0 {
            let mut message = path.to_owned();
            message.append(" lists no devices");
            Err(message)
        } else {
            Ok(self)
        }
    }
}

} // verus!
