//! Rewriting `header.stamp` inside wire payloads.
//!
//! LCM lays fields out in declaration order, big-endian, with no padding, after an 8-byte
//! fingerprint. Array-length fields are declared before the header, so for every stamped type the
//! stamp sits at a constant offset: `8 + 4*leading_length_fields + 4 (header.seq)`. That lets us patch
//! 8 bytes in place instead of decoding and re-encoding a multi-megabyte point cloud.
//!
//! Only a `TFMessage` has to be decoded: it is a list of independently stamped transforms.
pub mod audit;
pub mod filter;
pub use audit::Audit;
use crate::cdr::layout::{
    digits, doubles, lemma_capacities, lemma_digits_number, one, part, word, Kind, Part,
};
use crate::cdr::messages::{Header, TFMessage, Time, TransformStamped};
use crate::cdr::reader::word32;
use crate::cdr::types::MessageType;
use crate::text::{decimal, found, lemma_found, lemma_found_whole, push_decimal, same};
pub use filter::TfFilter;
use vstd::prelude::*;
use vstd::slice::slice_subrange;

verus! {

/// The type name of a `tf` stream, the only one that transforms are dropped from.
pub const TF_MESSAGE: &'static str = "tf2_msgs.TFMessage";

pub const NANOS_PER_SEC: i64 = 1_000_000_000;

/// How far a payload stamp may sit from the moment the recorder received the message before we stop
/// believing the two are on the same clock.
///
/// Some drivers stamp with system uptime rather than the epoch. Mapped as if it were a recording
/// time, a stamp like that lands before 1970 and gets flattened to zero, which is worse than useless
/// to a subscriber. An hour is far beyond any real sensor latency and still nowhere near an uptime
/// clock.
pub const SAME_CLOCK_NS: i64 = 3_600_000_000_000;

/// How a message type's timestamp can be rewritten.
#[derive(Debug, Clone, Copy, PartialEq, Eq, Structural)]
pub enum Support {
    /// `stamp.sec` lives at this byte offset, `stamp.nsec` at `offset + 4`.
    Fixed(usize),
    /// Variable-length array of independently stamped transforms.
    TfMessage,
    /// No known timestamp field; payload is republished untouched.
    Unstamped,
}

/// Whether messages of the named type are lists of transforms.
pub open spec fn holds_transforms(name: Seq<char>) -> bool {
    name == "tf2_msgs.TFMessage"@ || name == "geometry_msgs.Transform"@
}

/// Whether the named type starts with its header, or with a bare time behind one length field.
pub open spec fn stamped_at_12(name: Seq<char>) -> bool {
    ||| name == "geometry_msgs.PointStamped"@
    ||| name == "geometry_msgs.PoseStamped"@
    ||| name == "geometry_msgs.PoseWithCovarianceStamped"@
    ||| name == "geometry_msgs.TransformStamped"@
    ||| name == "geometry_msgs.TwistStamped"@
    ||| name == "geometry_msgs.TwistWithCovarianceStamped"@
    ||| name == "geometry_msgs.WrenchStamped"@
    ||| name == "nav_msgs.Odometry"@
    ||| name == "sensor_msgs.Imu"@
    ||| name == "foxglove_msgs.CompressedVideo"@
}

/// Whether the named type has one length field ahead of its header.
pub open spec fn stamped_at_16(name: Seq<char>) -> bool {
    ||| name == "nav_msgs.LineSegments3D"@
    ||| name == "nav_msgs.OccupancyGrid"@
    ||| name == "nav_msgs.Path"@
    ||| name == "sensor_msgs.CameraInfo"@
    ||| name == "sensor_msgs.CompressedImage"@
    ||| name == "sensor_msgs.Image"@
    ||| name == "vision_msgs.Detection2D"@
    ||| name == "vision_msgs.Detection2DArray"@
    ||| name == "vision_msgs.Detection3D"@
    ||| name == "vision_msgs.Detection3DArray"@
}

/// How the timestamp of the named type can be rewritten.
pub open spec fn support_of(name: Seq<char>) -> Support {
    if holds_transforms(name) {
        Support::TfMessage
    } else if stamped_at_12(name) {
        Support::Fixed(12)
    } else if stamped_at_16(name) {
        Support::Fixed(16)
    } else if name == "sensor_msgs.Joy"@ || name == "sensor_msgs.PointCloud2"@ {
        Support::Fixed(20)
    } else if name == "sensor_msgs.JointState"@ {
        Support::Fixed(28)
    } else {
        Support::Unstamped
    }
}

pub fn support_for(msg_name: &str) -> (r: Support)
    ensures
        r == support_of(msg_name@),
{
    if same(msg_name, "tf2_msgs.TFMessage") || same(msg_name, "geometry_msgs.Transform") {
        Support::TfMessage
    } else if same(msg_name, "geometry_msgs.PointStamped") || same(
        msg_name,
        "geometry_msgs.PoseStamped",
    ) || same(msg_name, "geometry_msgs.PoseWithCovarianceStamped") || same(
        msg_name,
        "geometry_msgs.TransformStamped",
    ) || same(msg_name, "geometry_msgs.TwistStamped") || same(
        msg_name,
        "geometry_msgs.TwistWithCovarianceStamped",
    ) || same(msg_name, "geometry_msgs.WrenchStamped") || same(msg_name, "nav_msgs.Odometry")
        || same(msg_name, "sensor_msgs.Imu") || same(msg_name, "foxglove_msgs.CompressedVideo") {
        Support::Fixed(12)
    } else if same(msg_name, "nav_msgs.LineSegments3D") || same(msg_name, "nav_msgs.OccupancyGrid")
        || same(msg_name, "nav_msgs.Path") || same(msg_name, "sensor_msgs.CameraInfo") || same(
        msg_name,
        "sensor_msgs.CompressedImage",
    ) || same(msg_name, "sensor_msgs.Image") || same(msg_name, "vision_msgs.Detection2D") || same(
        msg_name,
        "vision_msgs.Detection2DArray",
    ) || same(msg_name, "vision_msgs.Detection3D") || same(msg_name, "vision_msgs.Detection3DArray") {
        Support::Fixed(16)
    } else if same(msg_name, "sensor_msgs.Joy") || same(msg_name, "sensor_msgs.PointCloud2") {
        Support::Fixed(20)
    } else if same(msg_name, "sensor_msgs.JointState") {
        Support::Fixed(28)
    } else {
        Support::Unstamped
    }
}

// ---------------------------------------------------------------- nanoseconds
/// The time that a stamp gives, in nanoseconds. `sec <= 0` is the "unset" marker, not a real 1970
/// timestamp.
pub open spec fn stamp_nanos(sec: i32, nsec: i32) -> Option<int> {
    if sec > 0 {
        Some(sec * 1_000_000_000 + nsec)
    } else {
        None
    }
}

/// The whole seconds of a time, which stop at the largest that a stamp can hold.
pub open spec fn sec_part(ns: int) -> i32 {
    if ns <= 0 {
        0
    } else if ns / 1_000_000_000 > i32::MAX {
        i32::MAX
    } else {
        (ns / 1_000_000_000) as i32
    }
}

/// The nanoseconds of a time past the whole second.
pub open spec fn nsec_part(ns: int) -> i32 {
    if ns <= 0 {
        0
    } else {
        (ns % 1_000_000_000) as i32
    }
}

/// The view of an optional time.
pub open spec fn time_view(time: Option<i64>) -> Option<int> {
    match time {
        Some(ns) => Some(ns as int),
        None => None,
    }
}

pub fn nanos_from_parts(sec: i32, nsec: i32) -> (r: Option<i64>)
    ensures
        time_view(r) == stamp_nanos(sec, nsec),
{
    if sec > 0 {
        Some(sec as i64 * NANOS_PER_SEC + nsec as i64)
    } else {
        None
    }
}

pub fn nanos_to_parts(ns: i64) -> (r: (i32, i32))
    ensures
        r == (sec_part(ns as int), nsec_part(ns as int)),
{
    if ns <= 0 {
        return (0, 0);
    }
    let time: u64 = ns as u64;
    let sec: u64 = time / 1_000_000_000;
    let nsec: u64 = time % 1_000_000_000;
    if sec > 0x7fff_ffff {
        (i32::MAX, nsec as i32)
    } else {
        (sec as i32, nsec as i32)
    }
}

/// A time that a stamp can hold is given back by the stamp made of it.
pub proof fn law_times_survive_a_stamp(ns: int)
    requires
        1_000_000_000 <= ns < 0x8000_0000 * 1_000_000_000,
    ensures
        stamp_nanos(sec_part(ns), nsec_part(ns)) == Some(ns),
{
}

/// Whether a payload stamp reads as coming from the clock the recorder used. With no reception time
/// to compare against, the payload gets the benefit of the doubt.
pub open spec fn on_same_clock(stamp_ns: int, received_ns: int) -> bool {
    received_ns == 0 || -SAME_CLOCK_NS <= stamp_ns - received_ns <= SAME_CLOCK_NS
}

pub fn same_clock(stamp_ns: i64, received_ns: i64) -> (r: bool)
    ensures
        r == on_same_clock(stamp_ns as int, received_ns as int),
{
    if received_ns == 0 {
        return true;
    }
    let apart: i128 = stamp_ns as i128 - received_ns as i128;
    -(SAME_CLOCK_NS as i128) <= apart && apart <= SAME_CLOCK_NS as i128
}

// ------------------------------------------------------------- bytes of a stamp
/// The signed number that four bytes spell, most significant first.
pub open spec fn spelled(bytes: Seq<u8>) -> i32 {
    word(bytes, false) as u32 as i32
}

/// The four bytes that spell a signed number, most significant first.
pub open spec fn spelling(value: i32) -> Seq<u8> {
    digits(value as u32 as nat, 4).reverse()
}

/// The time that the stamp at `offset` gives.
pub open spec fn stamp_at(buf: Seq<u8>, offset: int) -> Option<int> {
    stamp_nanos(
        spelled(buf.subrange(offset, offset + 4)),
        spelled(buf.subrange(offset + 4, offset + 8)),
    )
}

/// The bytes of the stamp that gives a time.
pub open spec fn stamp_bytes(ns: int) -> Seq<u8> {
    spelling(sec_part(ns)) + spelling(nsec_part(ns))
}

/// A payload whose stamp at `offset` is made to give a time. Nothing else in it changes.
pub open spec fn patched(buf: Seq<u8>, offset: int, ns: int) -> Seq<u8> {
    buf.take(offset) + stamp_bytes(ns) + buf.skip(offset + 8)
}

proof fn lemma_spelling(value: i32)
    ensures
        spelling(value).len() == 4,
        spelled(spelling(value)) == value,
{
    lemma_capacities();
    lemma_digits_number(value as u32 as nat, 4);
    assert(spelling(value).reverse() =~= digits(value as u32 as nat, 4));
    assert(value as u32 as i32 == value) by (bit_vector);
}

/// Patching touches only the stamp: every other byte stays as it was, and the stamp gives the time
/// it was made of, if a stamp can hold that time.
pub proof fn law_patching_touches_only_the_stamp(buf: Seq<u8>, offset: int, ns: int)
    requires
        0 <= offset,
        offset + 8 <= buf.len(),
    ensures
        patched(buf, offset, ns).len() == buf.len(),
        forall|i: int|
            0 <= i < buf.len() && !(offset <= i < offset + 8) ==> #[trigger] patched(
                buf,
                offset,
                ns,
            )[i] == buf[i],
        stamp_at(patched(buf, offset, ns), offset) == stamp_nanos(sec_part(ns), nsec_part(ns)),
        1_000_000_000 <= ns < 0x8000_0000 * 1_000_000_000 ==> stamp_at(
            patched(buf, offset, ns),
            offset,
        ) == Some(ns),
{
    lemma_spelling(sec_part(ns));
    lemma_spelling(nsec_part(ns));
    let new = patched(buf, offset, ns);
    assert(new.subrange(offset, offset + 4) =~= spelling(sec_part(ns)));
    assert(new.subrange(offset + 4, offset + 8) =~= spelling(nsec_part(ns)));
}

pub fn read_nanos(buf: &[u8], offset: usize) -> (r: Option<i64>)
    requires
        offset + 8 <= buf.len(),
    ensures
        time_view(r) == stamp_at(buf@, offset as int),
{
    let sec: u32 = word32(slice_subrange(buf, offset, offset + 4), false);
    let nsec: u32 = word32(slice_subrange(buf, offset + 4, offset + 8), false);
    nanos_from_parts(sec as i32, nsec as i32)
}

fn write_word(buf: &mut Vec<u8>, offset: usize, value: i32)
    requires
        offset + 4 <= old(buf).len(),
    ensures
        final(buf)@ == old(buf)@.take(offset as int) + spelling(value) + old(buf)@.skip(offset + 4),
{
    let bits: u32 = value as u32;
    buf.set(offset, (bits / 16777216) as u8);
    buf.set(offset + 1, (bits / 65536 % 256) as u8);
    buf.set(offset + 2, (bits / 256 % 256) as u8);
    buf.set(offset + 3, (bits % 256) as u8);
    proof {
        reveal_with_fuel(digits, 5);
        let n = bits as nat;
        assert(n / 256 / 256 == n / 65536);
        assert(n / 256 / 256 / 256 == n / 16777216);
        assert(digits(n, 4) =~= seq![
            (n % 256) as u8,
            (n / 256 % 256) as u8,
            (n / 65536 % 256) as u8,
            (n / 16777216) as u8,
        ]);
        assert(buf@ =~= old(buf)@.take(offset as int) + spelling(value) + old(buf)@.skip(
            offset + 4,
        ));
    }
}

pub fn write_nanos(buf: &mut Vec<u8>, offset: usize, ns: i64)
    requires
        offset + 8 <= old(buf).len(),
    ensures
        final(buf)@ == patched(old(buf)@, offset as int, ns as int),
{
    let (sec, nsec): (i32, i32) = nanos_to_parts(ns);
    proof {
        lemma_spelling(sec);
        lemma_spelling(nsec);
    }
    write_word(buf, offset, sec);
    write_word(buf, offset + 4, nsec);
    assert(buf@ =~= patched(old(buf)@, offset as int, ns as int));
}

// ------------------------------------------------------------------- payloads
/// What a message holds. Only a `tf` message is ever taken apart.
#[derive(Debug, PartialEq, Eq)]
pub enum Payload {
    /// The bytes as they go onto the wire.
    Wire(Vec<u8>),
    /// The transforms of a `tf` message.
    Tf(TFMessage),
}

/// Why a payload could not be stamped.
#[derive(Debug, PartialEq, Eq)]
pub enum StampError {
    /// The payload ends before the stamp does.
    TooShort { len: usize, offset: usize },
    /// The payload of a `tf` message is not one.
    InvalidTf,
}

impl StampError {
    /// What the error reads like.
    pub open spec fn text(&self) -> Seq<char> {
        match self {
            StampError::TooShort { len, offset } => "payload is "@ + decimal(*len as nat)
                + " bytes, too short to hold a stamp at offset "@ + decimal(*offset as nat),
            StampError::InvalidTf => "invalid LCM TFMessage"@,
        }
    }

    pub fn message(&self) -> (r: String)
        ensures
            r@ == self.text(),
    {
        match self {
            StampError::TooShort { len, offset } => {
                let mut text: String = "payload is ".to_owned();
                push_decimal(&mut text, *len as u64);
                text.append(" bytes, too short to hold a stamp at offset ");
                push_decimal(&mut text, *offset as u64);
                text
            },
            StampError::InvalidTf => "invalid LCM TFMessage".to_owned(),
        }
    }
}

/// The time that a transform's stamp gives.
pub open spec fn transform_nanos(transform: TransformStamped) -> Option<int> {
    stamp_nanos(transform.header.stamp.sec, transform.header.stamp.nsec)
}

/// The time that the stamp of a payload gives: that of the one stamp, or of the first transform.
pub open spec fn payload_nanos(support: Support, payload: Payload) -> Option<int> {
    match (support, payload) {
        (Support::Fixed(offset), Payload::Wire(buf)) => if offset + 8 <= buf@.len() {
            stamp_at(buf@, offset as int)
        } else {
            None
        },
        (Support::TfMessage, Payload::Tf(message)) => if message.transforms@.len() > 0 {
            transform_nanos(message.transforms@[0])
        } else {
            None
        },
        _ => None,
    }
}

/// The payload's own timestamp in nanoseconds, or `None` when the type has no known stamp field, the
/// payload is too short, or the stamp is unset.
///
/// This is what a recorder writes as `publish_time`, and, being derived from the bytes rather than
/// from arrival, it is also what lets a message this process published be recognised when it loops
/// back. Each transform of a `tf` message carries its own stamp; the first stands for the message,
/// which is all an identity needs.
pub fn stamp_of(support: Support, payload: &Payload) -> (r: Option<i64>)
    ensures
        time_view(r) == payload_nanos(support, *payload),
{
    match (support, payload) {
        (Support::Fixed(offset), Payload::Wire(buf)) => {
            if buf.len() >= 8 && offset <= buf.len() - 8 {
                read_nanos(buf.as_slice(), offset)
            } else {
                None
            }
        },
        (Support::TfMessage, Payload::Tf(message)) => {
            if message.transforms.len() > 0 {
                let stamp: Time = message.transforms[0].header.stamp;
                nanos_from_parts(stamp.sec, stamp.nsec)
            } else {
                None
            }
        },
        _ => None,
    }
}

// ------------------------------------------------------------------- retiming
/// A stamp that can be believed: one that is set, on the clock of the recorder.
pub open spec fn believed(stamp: Option<int>, received_ns: int) -> Option<int> {
    match stamp {
        Some(ns) => if on_same_clock(ns, received_ns) {
            Some(ns)
        } else {
            None
        },
        None => None,
    }
}

/// The recording time that a stamp stands for. When it was received stands in for a stamp that is
/// unset or plainly on another clock.
pub open spec fn recording_time(stamp: Option<int>, received_ns: int) -> int {
    match believed(stamp, received_ns) {
        Some(ns) => ns,
        None => received_ns,
    }
}

/// The stamps of a payload, as far as they can be found.
pub open spec fn stamps_of(support: Support, payload: Payload) -> Seq<Option<int>> {
    match (support, payload) {
        (Support::Fixed(offset), Payload::Wire(buf)) => if offset + 8 <= buf@.len() {
            seq![stamp_at(buf@, offset as int)]
        } else {
            Seq::empty()
        },
        (Support::TfMessage, Payload::Tf(message)) => message.transforms@.map_values(
            |t: TransformStamped| transform_nanos(t),
        ),
        _ => Seq::empty(),
    }
}

/// A transform with another stamp.
pub open spec fn restamped(transform: TransformStamped, ns: int) -> TransformStamped {
    TransformStamped {
        header: Header {
            stamp: Time { sec: sec_part(ns), nsec: nsec_part(ns) },
            ..transform.header
        },
        ..transform
    }
}

fn believe(stamp: Option<i64>, received_ns: i64) -> (r: Option<i64>)
    ensures
        time_view(r) == believed(time_view(stamp), received_ns as int),
{
    match stamp {
        Some(ns) => {
            if same_clock(ns, received_ns) {
                Some(ns)
            } else {
                None
            }
        },
        None => None,
    }
}

/// The recording times that the stamps of a payload stand for, one for each stamp.
pub fn recording_times(support: Support, payload: &Payload, received_ns: i64) -> (times: Vec<i64>)
    ensures
        times@.len() == stamps_of(support, *payload).len(),
        forall|i: int|
            0 <= i < times@.len() ==> #[trigger] times@[i] == recording_time(
                stamps_of(support, *payload)[i],
                received_ns as int,
            ),
{
    let mut times: Vec<i64> = Vec::new();
    match (support, payload) {
        (Support::Fixed(offset), Payload::Wire(buf)) => {
            if buf.len() >= 8 && offset <= buf.len() - 8 {
                match believe(read_nanos(buf.as_slice(), offset), received_ns) {
                    Some(ns) => times.push(ns),
                    None => times.push(received_ns),
                }
            }
        },
        (Support::TfMessage, Payload::Tf(message)) => {
            let mut i: usize = 0;
            while i < message.transforms.len()
                invariant
                    i <= message.transforms.len(),
                    support == Support::TfMessage,
                    *payload == Payload::Tf(*message),
                    times@.len() == i,
                    forall|j: int|
                        0 <= j < i ==> #[trigger] times@[j] == recording_time(
                            stamps_of(support, *payload)[j],
                            received_ns as int,
                        ),
                decreases message.transforms.len() - i,
            {
                let stamp: Time = message.transforms[i].header.stamp;
                assert(stamps_of(support, *payload)[i as int] == transform_nanos(
                    message.transforms@[i as int],
                ));
                match believe(nanos_from_parts(stamp.sec, stamp.nsec), received_ns) {
                    Some(ns) => times.push(ns),
                    None => times.push(received_ns),
                }
                i = i + 1;
            }
        },
        _ => {},
    }
    times
}

/// Maps recording-clock timestamps onto the replay wall clock.
///
/// Arithmetic stays in integer nanoseconds. A Unix timestamp in floating-point *seconds* only
/// resolves to ~100 ns, so round-tripping a stamp through one would perturb it even when the mapping
/// is a whole-second shift.
#[derive(Debug, Clone, Copy, PartialEq, Eq, Structural)]
pub enum Retimer {
    /// Stamps track emission: at twice the rate they end up twice as close together. The recording
    /// time that has passed since `first_ns` comes divided by the rate.
    Scaled { first_ns: i64, start_wall_ns: i64 },
    /// Stamps move to the present but keep their original spacing.
    Shifted { delta_ns: i64 },
    /// Payloads keep whatever the recording captured.
    Original,
}

impl Retimer {
    /// Where a recording time lands. `scaled_ns` is what has passed since `first_ns`, divided by the
    /// rate; only `Scaled` looks at it.
    pub open spec fn mapped(self, ns: int, scaled_ns: int) -> int {
        match self {
            Retimer::Scaled { first_ns, start_wall_ns } => start_wall_ns + scaled_ns,
            Retimer::Shifted { delta_ns } => ns + delta_ns,
            Retimer::Original => ns,
        }
    }

    /// Where the `i`-th stamp of a payload lands.
    pub open spec fn lands(
        self,
        support: Support,
        payload: Payload,
        received_ns: int,
        scaled_ns: Seq<i64>,
        i: int,
    ) -> int {
        self.mapped(
            recording_time(stamps_of(support, payload)[i], received_ns),
            scaled_ns[i] as int,
        )
    }

    /// Whether every stamp of a payload lands on a time that 64 bits can hold, and `Scaled` is given
    /// the scaled time of each.
    pub open spec fn can_map(
        self,
        support: Support,
        payload: Payload,
        received_ns: int,
        scaled_ns: Seq<i64>,
    ) -> bool {
        &&& self is Scaled ==> scaled_ns.len() == stamps_of(support, payload).len()
        &&& forall|i: int|
            0 <= i < stamps_of(support, payload).len() ==> i64::MIN <= #[trigger] self.lands(
                support,
                payload,
                received_ns,
                scaled_ns,
                i,
            ) <= i64::MAX
    }

    /// Whether transforms differ from others by nothing but where their stamps landed.
    pub open spec fn retimed(
        self,
        before: Seq<TransformStamped>,
        after: Seq<TransformStamped>,
        received_ns: int,
        scaled_ns: Seq<i64>,
    ) -> bool {
        &&& after.len() == before.len()
        &&& forall|i: int|
            0 <= i < before.len() ==> #[trigger] after[i] == restamped(
                before[i],
                self.mapped(
                    recording_time(transform_nanos(before[i]), received_ns),
                    scaled_ns[i] as int,
                ),
            )
    }

    pub fn map(&self, ns: i64, scaled_ns: i64) -> (r: i64)
        requires
            i64::MIN <= self.mapped(ns as int, scaled_ns as int) <= i64::MAX,
        ensures
            r == self.mapped(ns as int, scaled_ns as int),
            *self matches Retimer::Scaled { start_wall_ns, .. } ==> r - start_wall_ns == scaled_ns,
            *self matches Retimer::Shifted { delta_ns } ==> r - ns == delta_ns,
            *self is Original ==> r == ns,
    {
        match self {
            Retimer::Scaled { first_ns, start_wall_ns } => *start_wall_ns + scaled_ns,
            Retimer::Shifted { delta_ns } => ns + *delta_ns,
            Retimer::Original => ns,
        }
    }

    /// Rewrites the payload's stamps in place.
    ///
    /// `received_ns` is when the recorder took delivery of the message. It stands in whenever the
    /// payload's own stamp is unset (`sec <= 0`) or is plainly on another clock, and the return value
    /// reports that it had to. `scaled_ns` holds, for `Scaled`, how far each of the
    /// `recording_times` lies from `first_ns`, divided by the rate.
    pub fn apply(
        &self,
        support: Support,
        payload: &mut Payload,
        received_ns: i64,
        scaled_ns: &[i64],
    ) -> (r: Result<bool, StampError>)
        requires
            support is Fixed ==> *old(payload) is Wire,
            *self !is Original ==> self.can_map(
                support,
                *old(payload),
                received_ns as int,
                scaled_ns@,
            ),
        ensures
            match (*self, support, *old(payload)) {
                (Retimer::Original, _, _) => r == Ok::<bool, StampError>(false) && *final(payload)
                    == *old(payload),
                (_, Support::Unstamped, _) => r == Ok::<bool, StampError>(false) && *final(payload)
                    == *old(payload),
                (_, Support::Fixed(offset), Payload::Wire(buf)) => if offset + 8 <= buf@.len() {
                    &&& r == Ok::<bool, StampError>(
                        believed(stamp_at(buf@, offset as int), received_ns as int) is None,
                    )
                    &&& *final(payload) is Wire
                    &&& final(payload)->Wire_0@ == patched(
                        buf@,
                        offset as int,
                        self.lands(support, *old(payload), received_ns as int, scaled_ns@, 0),
                    )
                } else {
                    &&& r == Err::<bool, StampError>(StampError::TooShort { len: buf.len(), offset })
                    &&& *final(payload) == *old(payload)
                },
                (_, Support::TfMessage, Payload::Tf(message)) => {
                    &&& r == Ok::<bool, StampError>(
                        exists|i: int|
                            0 <= i < message.transforms@.len() && believed(
                                transform_nanos(#[trigger] message.transforms@[i]),
                                received_ns as int,
                            ) is None,
                    )
                    &&& *final(payload) is Tf
                    &&& self.retimed(
                        message.transforms@,
                        final(payload)->Tf_0.transforms@,
                        received_ns as int,
                        scaled_ns@,
                    )
                },
                (_, Support::TfMessage, Payload::Wire(_)) => r == Err::<bool, StampError>(
                    StampError::InvalidTf,
                ) && *final(payload) == *old(payload),
                _ => true,
            },
    {
        match self {
            Retimer::Original => {
                return Ok(false);
            },
            _ => {},
        }
        let scaled: bool = match self {
            Retimer::Scaled { .. } => true,
            _ => false,
        };
        match (support, payload) {
            (Support::Fixed(offset), Payload::Wire(buf)) => {
                let len: usize = buf.len();
                if len < 8 || offset > len - 8 {
                    return Err(StampError::TooShort { len, offset });
                }
                let recorded: Option<i64> = believe(
                    read_nanos(buf.as_slice(), offset),
                    received_ns,
                );
                let time: i64 = match recorded {
                    Some(ns) => ns,
                    None => received_ns,
                };
                let scaled_time: i64 = if scaled {
                    scaled_ns[0]
                } else {
                    0
                };
                assert(self.mapped(time as int, scaled_time as int) == self.lands(
                    support,
                    *old(payload),
                    received_ns as int,
                    scaled_ns@,
                    0,
                ));
                write_nanos(buf, offset, self.map(time, scaled_time));
                Ok(recorded.is_none())
            },
            (Support::TfMessage, Payload::Tf(message)) => {
                let ghost before = message.transforms@;
                assert forall|j: int| 0 <= j < before.len() implies i64::MIN <= self.mapped(
                    recording_time(transform_nanos(#[trigger] before[j]), received_ns as int),
                    scaled_ns@[j] as int,
                ) <= i64::MAX by {
                    let landed = self.lands(
                        support,
                        *old(payload),
                        received_ns as int,
                        scaled_ns@,
                        j,
                    );
                    assert(i64::MIN <= landed <= i64::MAX);
                }
                let mut substituted: bool = false;
                let mut i: usize = 0;
                while i < message.transforms.len()
                    invariant
                        i <= message.transforms@.len() == before.len(),
                        scaled ==> scaled_ns@.len() == before.len(),
                        scaled == (*self is Scaled),
                        substituted == (exists|j: int|
                            0 <= j < i && believed(
                                transform_nanos(#[trigger] before[j]),
                                received_ns as int,
                            ) is None),
                        forall|j: int|
                            i <= j < before.len() ==> #[trigger] message.transforms@[j]
                                == before[j],
                        forall|j: int|
                            0 <= j < i ==> #[trigger] message.transforms@[j] == restamped(
                                before[j],
                                self.mapped(
                                    recording_time(transform_nanos(before[j]), received_ns as int),
                                    scaled_ns@[j] as int,
                                ),
                            ),
                        forall|j: int|
                            0 <= j < before.len() ==> i64::MIN <= self.mapped(
                                recording_time(
                                    transform_nanos(#[trigger] before[j]),
                                    received_ns as int,
                                ),
                                scaled_ns@[j] as int,
                            ) <= i64::MAX,
                    decreases before.len() - i,
                {
                    let stamp: Time = message.transforms[i].header.stamp;
                    let recorded: Option<i64> = believe(
                        nanos_from_parts(stamp.sec, stamp.nsec),
                        received_ns,
                    );
                    let time: i64 = match recorded {
                        Some(ns) => ns,
                        None => received_ns,
                    };
                    let scaled_time: i64 = if scaled {
                        scaled_ns[i]
                    } else {
                        0
                    };
                    assert(message.transforms@[i as int] == before[i as int]);
                    assert(self.mapped(time as int, scaled_time as int) == self.mapped(
                        recording_time(transform_nanos(before[i as int]), received_ns as int),
                        scaled_ns@[i as int] as int,
                    ));
                    let (sec, nsec): (i32, i32) = nanos_to_parts(self.map(time, scaled_time));
                    message.transforms[i].header.stamp = Time { sec, nsec };
                    substituted = substituted || recorded.is_none();
                    i = i + 1;
                }
                Ok(substituted)
            },
            (Support::TfMessage, Payload::Wire(_)) => Err(StampError::InvalidTf),
            _ => Ok(false),
        }
    }
}

/// A shift keeps the spacing of the stamps, whatever they come scaled to.
pub proof fn law_shifting_keeps_the_spacing(delta_ns: i64, a: int, b: int, scaled_a: int, scaled_b: int)
    ensures
        ({
            let retimer = Retimer::Shifted { delta_ns };
            retimer.mapped(a, scaled_a) - retimer.mapped(b, scaled_b) == a - b
        }),
{
}

/// A shift by whole seconds leaves the nanosecond field as it was.
pub proof fn law_whole_second_shifts_keep_the_nanoseconds(delta_ns: i64, ns: int, scaled_ns: int)
    requires
        delta_ns % 1_000_000_000 == 0,
        ns > 0,
        ns + delta_ns > 0,
    ensures
        nsec_part(Retimer::Shifted { delta_ns }.mapped(ns, scaled_ns)) == nsec_part(ns),
{
}

/// Scaled stamps track emission. The message that the clocks are pinned at lands on the wall time they
/// are pinned to, and two messages land as far apart as their scaled times are.
pub proof fn law_scaled_stamps_track_emission(
    first_ns: i64,
    start_wall_ns: i64,
    a: int,
    b: int,
    scaled_a: int,
    scaled_b: int,
)
    ensures
        ({
            let retimer = Retimer::Scaled { first_ns, start_wall_ns };
            &&& retimer.mapped(first_ns as int, 0) == start_wall_ns
            &&& retimer.mapped(a, scaled_a) - retimer.mapped(b, scaled_b) == scaled_a - scaled_b
        }),
{
}

/// At a rate of `p` to `q` two messages land `q` to `p` as far apart as they were recorded. At the rate
/// that they were recorded at they keep their spacing, and land as far from their recording time as the
/// one that the clocks are pinned at.
pub proof fn law_scaled_stamps_follow_the_rate(
    first_ns: i64,
    start_wall_ns: i64,
    p: int,
    q: int,
    a: int,
    b: int,
    scaled_a: int,
    scaled_b: int,
)
    requires
        scaled_a * p == (a - first_ns) * q,
        scaled_b * p == (b - first_ns) * q,
    ensures
        ({
            let retimer = Retimer::Scaled { first_ns, start_wall_ns };
            &&& (retimer.mapped(a, scaled_a) - retimer.mapped(b, scaled_b)) * p == (a - b) * q
            &&& p == 1 && q == 1 ==> retimer.mapped(a, scaled_a) - a == start_wall_ns - first_ns
        }),
{
    assert((scaled_a - scaled_b) * p == (a - b) * q) by (nonlinear_arith)
        requires
            scaled_a * p == (a - first_ns) * q,
            scaled_b * p == (b - first_ns) * q,
    ;
}

/// A shift moves every stamp by the same time, and without one a stamp stays where it is.
pub proof fn law_shifts_move_by_their_delta(delta_ns: i64, ns: int, scaled_ns: int)
    ensures
        (Retimer::Shifted { delta_ns }).mapped(ns, scaled_ns) - ns == delta_ns,
        Retimer::Original.mapped(ns, scaled_ns) == ns,
{
}

/// The parts of a time add up to it, the nanoseconds short of a second. A time before the epoch is none,
/// and one too late for a stamp stops at its last second.
pub proof fn law_the_parts_of_a_time_add_up(ns: int)
    ensures
        0 <= nsec_part(ns) < 1_000_000_000,
        0 <= ns < 0x8000_0000 * 1_000_000_000 ==> sec_part(ns) * 1_000_000_000 + nsec_part(ns) == ns,
        ns < 0 ==> sec_part(ns) == 0 && nsec_part(ns) == 0,
        ns >= 0x8000_0000 * 1_000_000_000 ==> sec_part(ns) == 0x7fff_ffff && (ns - nsec_part(ns))
            % 1_000_000_000 == 0,
{
}

/// A later stamp gives a later time: a second is a thousand million nanoseconds. A stamp that is not
/// past the epoch gives none.
pub proof fn law_stamps_give_times(sec: i32, nsec: i32, other_sec: i32, other_nsec: i32)
    ensures
        stamp_nanos(sec, nsec) is Some <==> sec >= 1,
        sec >= 1 && other_sec >= 1 ==> stamp_nanos(sec, nsec)->0 - stamp_nanos(
            other_sec,
            other_nsec,
        )->0 == (sec - other_sec) * 1_000_000_000 + (nsec - other_nsec),
        stamp_nanos(1, 0) == Some(1_000_000_000int),
{
}

/// A patched stamp holds the seconds and then the nanoseconds of its time, each in four bytes with the
/// most significant first.
pub proof fn law_patched_stamps_are_big_endian(buf: Seq<u8>, offset: int, ns: int)
    requires
        0 <= offset,
        offset + 8 <= buf.len(),
        0 <= ns < 0x8000_0000 * 1_000_000_000,
    ensures
        ({
            let new = patched(buf, offset, ns);
            &&& new[offset] * 0x100_0000 + new[offset + 1] * 0x1_0000 + new[offset + 2] * 0x100
                + new[offset + 3] == ns / 1_000_000_000
            &&& new[offset + 4] * 0x100_0000 + new[offset + 5] * 0x1_0000 + new[offset + 6] * 0x100
                + new[offset + 7] == ns % 1_000_000_000
        }),
{
    let sec = sec_part(ns);
    let nsec = nsec_part(ns);
    lemma_spelling(sec);
    lemma_spelling(nsec);
    assert(sec as u32 == sec && nsec as u32 == nsec) by {
        assert(sec >= 0 && nsec >= 0);
    }
    reveal_with_fuel(digits, 5);
    let new = patched(buf, offset, ns);
    assert forall|i: int| 0 <= i < 4 implies new[offset + i] == spelling(sec)[i] && new[offset + 4
        + i] == spelling(nsec)[i] by {}
    lemma_four_digits(sec as nat);
    lemma_four_digits(nsec as nat);
}

proof fn lemma_four_digits(n: nat)
    requires
        n < 0x1_0000_0000,
    ensures
        digits(n, 4).len() == 4,
        digits(n, 4)[3] * 0x100_0000 + digits(n, 4)[2] * 0x1_0000 + digits(n, 4)[1] * 0x100 + digits(
            n,
            4,
        )[0] == n,
{
    reveal_with_fuel(digits, 5);
    let d = digits(n, 4);
    assert(d =~= seq![
        (n % 256) as u8,
        (n / 256 % 256) as u8,
        (n / 256 / 256 % 256) as u8,
        (n / 256 / 256 / 256 % 256) as u8,
    ]);
}

/// A stamp stands for a recording time within an hour of when the message was received: it is believed
/// if it lies there itself, and else the time of reception stands in. Where that is not known, any stamp
/// that is set is believed.
pub proof fn law_recording_times_lie_near_their_reception(stamp: Option<int>, received_ns: int)
    ensures
        received_ns != 0 ==> -3_600_000_000_000 <= recording_time(stamp, received_ns) - received_ns
            <= 3_600_000_000_000,
        stamp matches Some(ns) ==> (believed(stamp, received_ns) is Some <==> received_ns == 0
            || -3_600_000_000_000 <= ns - received_ns <= 3_600_000_000_000),
        stamp matches Some(ns) ==> (believed(stamp, received_ns) is Some ==> recording_time(
            stamp,
            received_ns,
        ) == ns),
        believed(stamp, received_ns) is None ==> recording_time(stamp, received_ns) == received_ns,
        stamp is None ==> believed(stamp, received_ns) is None,
{
}

/// How many of the fields of a run are bytes behind a length.
pub open spec fn bytes_in(kinds: Seq<Kind>) -> nat
    decreases kinds.len(),
{
    if kinds.len() == 0 {
        0
    } else {
        bytes_in(kinds.drop_last()) + if kinds.last() == Kind::Bytes {
            1nat
        } else {
            0nat
        }
    }
}

/// How many lists a message holds: bytes behind a length, and runs behind a count.
pub open spec fn lists_in(parts: Seq<Part>) -> nat
    decreases parts.len(),
{
    if parts.len() == 0 {
        0
    } else {
        lists_in(parts.drop_last()) + match parts.last() {
            Part::Run(kinds) => bytes_in(kinds),
            Part::Many(_) => 1nat,
        }
    }
}

broadcast proof fn lemma_bytes_in_concat(a: Seq<Kind>, b: Seq<Kind>)
    ensures
        #[trigger] bytes_in(a + b) == bytes_in(a) + bytes_in(b),
    decreases b.len(),
{
    if b.len() == 0 {
        assert(a + b =~= a);
    } else {
        assert((a + b).drop_last() =~= a + b.drop_last());
        lemma_bytes_in_concat(a, b.drop_last());
    }
}

broadcast proof fn lemma_bytes_in_one(kind: Kind)
    ensures
        #[trigger] bytes_in(one(kind)) == if kind == Kind::Bytes {
            1nat
        } else {
            0nat
        },
{
    assert(one(kind).drop_last() =~= Seq::empty());
    assert(bytes_in(Seq::empty()) == 0);
}

broadcast proof fn lemma_bytes_in_doubles(n: nat)
    ensures
        #[trigger] bytes_in(doubles(n)) == 0,
    decreases n,
{
    if n > 0 {
        assert(doubles(n).drop_last() =~= doubles((n - 1) as nat));
        lemma_bytes_in_doubles((n - 1) as nat);
    }
}

broadcast proof fn lemma_lists_in_concat(a: Seq<Part>, b: Seq<Part>)
    ensures
        #[trigger] lists_in(a + b) == lists_in(a) + lists_in(b),
    decreases b.len(),
{
    if b.len() == 0 {
        assert(a + b =~= a);
    } else {
        assert((a + b).drop_last() =~= a + b.drop_last());
        lemma_lists_in_concat(a, b.drop_last());
    }
}

broadcast proof fn lemma_lists_in_one(p: Part)
    ensures
        #[trigger] lists_in(part(p)) == (match p {
            Part::Run(kinds) => bytes_in(kinds),
            Part::Many(_) => 1nat,
        }),
{
    assert(part(p).drop_last() =~= Seq::empty());
    assert(lists_in(Seq::empty()) == 0);
}

/// Where the stamps of the named types stand: those without a list of their own right behind the
/// fingerprint and the sequence number, those with one list four bytes on.
pub proof fn law_stamps_stand_at_these_offsets(name: Seq<char>)
    ensures
        support_of("tf2_msgs.TFMessage"@) == Support::TfMessage,
        support_of("geometry_msgs.Transform"@) == Support::TfMessage,
        support_of("geometry_msgs.PointStamped"@) == Support::Fixed(12),
        support_of("geometry_msgs.PoseStamped"@) == Support::Fixed(12),
        support_of("geometry_msgs.PoseWithCovarianceStamped"@) == Support::Fixed(12),
        support_of("geometry_msgs.TransformStamped"@) == Support::Fixed(12),
        support_of("geometry_msgs.TwistStamped"@) == Support::Fixed(12),
        support_of("geometry_msgs.TwistWithCovarianceStamped"@) == Support::Fixed(12),
        support_of("geometry_msgs.WrenchStamped"@) == Support::Fixed(12),
        support_of("nav_msgs.Odometry"@) == Support::Fixed(12),
        support_of("sensor_msgs.Imu"@) == Support::Fixed(12),
        support_of("foxglove_msgs.CompressedVideo"@) == Support::Fixed(12),
        support_of("nav_msgs.LineSegments3D"@) == Support::Fixed(16),
        support_of("nav_msgs.OccupancyGrid"@) == Support::Fixed(16),
        support_of("nav_msgs.Path"@) == Support::Fixed(16),
        support_of("sensor_msgs.CameraInfo"@) == Support::Fixed(16),
        support_of("sensor_msgs.CompressedImage"@) == Support::Fixed(16),
        support_of("sensor_msgs.Image"@) == Support::Fixed(16),
        support_of("vision_msgs.Detection2D"@) == Support::Fixed(16),
        support_of("vision_msgs.Detection2DArray"@) == Support::Fixed(16),
        support_of("vision_msgs.Detection3D"@) == Support::Fixed(16),
        support_of("vision_msgs.Detection3DArray"@) == Support::Fixed(16),
        support_of("sensor_msgs.Joy"@) == Support::Fixed(20),
        support_of("sensor_msgs.PointCloud2"@) == Support::Fixed(20),
        support_of("sensor_msgs.JointState"@) == Support::Fixed(28),
        support_of("sensor_msgs.LaserScan"@) == Support::Unstamped,
        support_of(name) matches Support::Fixed(offset) ==> offset % 4 == 0 && 12 <= offset <= 28,
{
    reveal_strlit("tf2_msgs.TFMessage");
    reveal_strlit("geometry_msgs.Transform");
    reveal_strlit("geometry_msgs.PointStamped");
    reveal_strlit("geometry_msgs.PoseStamped");
    reveal_strlit("geometry_msgs.PoseWithCovarianceStamped");
    reveal_strlit("geometry_msgs.TransformStamped");
    reveal_strlit("geometry_msgs.TwistStamped");
    reveal_strlit("geometry_msgs.TwistWithCovarianceStamped");
    reveal_strlit("geometry_msgs.WrenchStamped");
    reveal_strlit("nav_msgs.Odometry");
    reveal_strlit("sensor_msgs.Imu");
    reveal_strlit("foxglove_msgs.CompressedVideo");
    reveal_strlit("nav_msgs.LineSegments3D");
    reveal_strlit("nav_msgs.OccupancyGrid");
    reveal_strlit("nav_msgs.Path");
    reveal_strlit("sensor_msgs.CameraInfo");
    reveal_strlit("sensor_msgs.CompressedImage");
    reveal_strlit("sensor_msgs.Image");
    reveal_strlit("vision_msgs.Detection2D");
    reveal_strlit("vision_msgs.Detection2DArray");
    reveal_strlit("vision_msgs.Detection3D");
    reveal_strlit("vision_msgs.Detection3DArray");
    reveal_strlit("sensor_msgs.Joy");
    reveal_strlit("sensor_msgs.PointCloud2");
    reveal_strlit("sensor_msgs.JointState");
    reveal_strlit("sensor_msgs.LaserScan");
    assert("tf2_msgs.TFMessage"@.len() == 18);
    assert("geometry_msgs.Transform"@.len() == 23);
    assert("geometry_msgs.PointStamped"@.len() == 26);
    assert("geometry_msgs.PoseStamped"@.len() == 25);
    assert("geometry_msgs.PoseWithCovarianceStamped"@.len() == 39);
    assert("geometry_msgs.TransformStamped"@.len() == 30);
    assert("geometry_msgs.TwistStamped"@.len() == 26);
    assert("geometry_msgs.TwistWithCovarianceStamped"@.len() == 40);
    assert("geometry_msgs.WrenchStamped"@.len() == 27);
    assert("nav_msgs.Odometry"@.len() == 17);
    assert("sensor_msgs.Imu"@.len() == 15);
    assert("foxglove_msgs.CompressedVideo"@.len() == 29);
    assert("nav_msgs.LineSegments3D"@.len() == 23);
    assert("nav_msgs.OccupancyGrid"@.len() == 22);
    assert("nav_msgs.Path"@.len() == 13);
    assert("sensor_msgs.CameraInfo"@.len() == 22);
    assert("sensor_msgs.CompressedImage"@.len() == 27);
    assert("sensor_msgs.Image"@.len() == 17);
    assert("vision_msgs.Detection2D"@.len() == 23);
    assert("vision_msgs.Detection2DArray"@.len() == 28);
    assert("vision_msgs.Detection3D"@.len() == 23);
    assert("vision_msgs.Detection3DArray"@.len() == 28);
    assert("sensor_msgs.Joy"@.len() == 15);
    assert("sensor_msgs.PointCloud2"@.len() == 23);
    assert("sensor_msgs.JointState"@.len() == 22);
    assert("sensor_msgs.LaserScan"@.len() == 21);
    assert("sensor_msgs.Imu"@[12] == 'I');
    assert("sensor_msgs.Joy"@[12] == 'J');
    assert("nav_msgs.Odometry"@[0] == 'n');
    assert("sensor_msgs.Image"@[0] == 's');
    assert("nav_msgs.OccupancyGrid"@[0] == 'n');
    assert("nav_msgs.OccupancyGrid"@[12] == 'u');
    assert("sensor_msgs.CameraInfo"@[0] == 's');
    assert("sensor_msgs.CameraInfo"@[12] == 'C');
    assert("sensor_msgs.JointState"@[0] == 's');
    assert("sensor_msgs.JointState"@[12] == 'J');
    assert("geometry_msgs.Transform"@[0] == 'g');
    assert("geometry_msgs.Transform"@[21] == 'r');
    assert("nav_msgs.LineSegments3D"@[0] == 'n');
    assert("nav_msgs.LineSegments3D"@[21] == '3');
    assert("vision_msgs.Detection2D"@[0] == 'v');
    assert("vision_msgs.Detection2D"@[21] == '2');
    assert("vision_msgs.Detection3D"@[0] == 'v');
    assert("vision_msgs.Detection3D"@[21] == '3');
    assert("sensor_msgs.PointCloud2"@[0] == 's');
    assert("sensor_msgs.PointCloud2"@[21] == 'd');
    assert("geometry_msgs.PointStamped"@[14] == 'P');
    assert("geometry_msgs.TwistStamped"@[14] == 'T');
    assert("geometry_msgs.WrenchStamped"@[0] == 'g');
    assert("sensor_msgs.CompressedImage"@[0] == 's');
    assert("vision_msgs.Detection2DArray"@[21] == '2');
    assert("vision_msgs.Detection3DArray"@[21] == '3');
}

/// A message starts with a fingerprint of eight bytes, the length of each of its lists in four, and the
/// sequence number of its header in four. The stamp comes behind that. Laser scans are left alone, and
/// the transforms of a `tf` message have a stamp each.
pub proof fn law_stamps_come_behind_the_lengths(message_type: MessageType)
    ensures
        match message_type {
            MessageType::TFMessage => support_of(message_type.name()) == Support::TfMessage,
            MessageType::LaserScan => support_of(message_type.name()) == Support::Unstamped,
            _ => support_of(message_type.name()) matches Support::Fixed(offset) && offset == 8 + 4
                * lists_in(message_type.parts()) + 4,
        },
{
    broadcast use {
        lemma_bytes_in_concat,
        lemma_bytes_in_one,
        lemma_bytes_in_doubles,
        lemma_lists_in_concat,
        lemma_lists_in_one,
    };

    law_stamps_stand_at_these_offsets(message_type.name());
}

/// The first stamp of a payload stands for the whole.
pub proof fn law_the_first_stamp_stands_for_the_payload(support: Support, payload: Payload)
    ensures
        payload_nanos(support, payload) == (if stamps_of(support, payload).len() > 0 {
            stamps_of(support, payload)[0]
        } else {
            None
        }),
        payload matches Payload::Tf(message) ==> (support == Support::TfMessage ==> stamps_of(
            support,
            payload,
        ).len() == message.transforms@.len()),
        payload matches Payload::Wire(buf) ==> (support matches Support::Fixed(offset) ==> stamps_of(
            support,
            payload,
        ).len() == (if offset + 8 <= buf@.len() {
            1nat
        } else {
            0nat
        })),
        support == Support::Unstamped ==> stamps_of(support, payload).len() == 0,
{
}

/// A transform that is stamped anew gives the new time, where a stamp can hold that, and is the same in
/// all else.
pub proof fn law_restamping_changes_only_the_stamp(transform: TransformStamped, ns: int)
    ensures
        1_000_000_000 <= ns < 0x8000_0000 * 1_000_000_000 ==> transform_nanos(
            restamped(transform, ns),
        ) == Some(ns),
        restamped(transform, ns).header.frame_id == transform.header.frame_id,
        restamped(transform, ns).header.seq == transform.header.seq,
        restamped(transform, ns).child_frame_id == transform.child_frame_id,
        restamped(transform, ns).transform == transform.transform,
{
}

impl StampError {
    /// A complaint gives the length of the payload and where the stamp should be.
    pub proof fn law_complaints_give_the_numbers(self)
        ensures
        self matches StampError::TooShort { len, offset } ==> found(self.text(), decimal(len as nat)),
        self matches StampError::TooShort { len, offset } ==> found(self.text(), decimal(offset as nat)),
    {
        if let StampError::TooShort { len, offset } = self {
            lemma_found_whole(decimal(len as nat));
            let front = "payload is "@;
            let back = " bytes, too short to hold a stamp at offset "@ + decimal(offset as nat);
            lemma_found(front, decimal(len as nat), back, decimal(len as nat));
            assert(self.text() =~= front + decimal(len as nat) + back);
        }
        if let StampError::TooShort { len, offset } = self {
            lemma_found_whole(decimal(offset as nat));
            let front = "payload is "@
                + decimal(len as nat)
                + " bytes, too short to hold a stamp at offset "@;
            let back = Seq::empty();
            lemma_found(front, decimal(offset as nat), back, decimal(offset as nat));
            assert(self.text() =~= front + decimal(offset as nat) + back);
        }
    }
}

/// The stream that transforms are dropped from is that of the type whose messages are lists of them.
pub proof fn law_transforms_are_dropped_from_tf_messages()
    ensures
        TF_MESSAGE@ == MessageType::TFMessage.name(),
        support_of(TF_MESSAGE@) == Support::TfMessage,
{
}

/// A shifted stamp lands its shift away from itself where it can be believed, and from the time of
/// reception where it cannot; a scaled one lands its scaled time away from where the clocks are pinned.
pub proof fn law_stamps_land_by_what_is_believed_of_them(
    retimer: Retimer,
    support: Support,
    payload: Payload,
    received_ns: int,
    scaled_ns: Seq<i64>,
    i: int,
)
    requires
        0 <= i < stamps_of(support, payload).len(),
    ensures
        ({
            let lands = retimer.lands(support, payload, received_ns, scaled_ns, i);
            let stamp = stamps_of(support, payload)[i];
            let near = stamp is Some && (received_ns == 0 || -3_600_000_000_000 <= stamp->0
                - received_ns <= 3_600_000_000_000);
            &&& retimer matches Retimer::Shifted { delta_ns } ==> (near ==> lands - stamp->0
                == delta_ns) && (!near ==> lands - received_ns == delta_ns)
            &&& retimer matches Retimer::Scaled { start_wall_ns, .. } ==> lands - start_wall_ns
                == scaled_ns[i]
        }),
{
}

/// Transforms that are retimed keep all but their stamps, and give the times where those land.
pub proof fn law_retimed_transforms_give_where_their_stamps_land(
    retimer: Retimer,
    message: TFMessage,
    after: Seq<TransformStamped>,
    received_ns: int,
    scaled_ns: Seq<i64>,
    i: int,
)
    requires
        retimer.retimed(message.transforms@, after, received_ns, scaled_ns),
        0 <= i < message.transforms@.len(),
    ensures
        ({
            let before = message.transforms@[i];
            let lands = retimer.lands(
                Support::TfMessage,
                Payload::Tf(message),
                received_ns,
                scaled_ns,
                i,
            );
            &&& after.len() == message.transforms@.len()
            &&& after[i].header.frame_id == before.header.frame_id
            &&& after[i].child_frame_id == before.child_frame_id
            &&& after[i].transform == before.transform
            &&& 1_000_000_000 <= lands < 0x8000_0000 * 1_000_000_000 ==> after[i].header.stamp.sec
                * 1_000_000_000 + after[i].header.stamp.nsec == lands && 0
                <= after[i].header.stamp.nsec < 1_000_000_000
        }),
{
    let before = message.transforms@;
    assert(stamps_of(Support::TfMessage, Payload::Tf(message))[i] == transform_nanos(before[i]));
    assert(after[i] == restamped(
        before[i],
        retimer.mapped(
            recording_time(transform_nanos(before[i]), received_ns),
            scaled_ns[i] as int,
        ),
    ));
}

} // verus!
