//! Deciding what of the captured traffic goes into the file, and under which channel.
use super::loopback::{among, noted, remembered, SelfPublished};
use super::{
    channel_metadata, channel_parts, law_recorded_channels_read_back, metadata_of, module_of,
    schema_for, split_channel, stored_as, stores, Codec, Schema, Selection,
};
use crate::cdr::messages::writable;
use crate::cdr::types::{type_named, Message};
use crate::order::{texts_of, Table};
use crate::outside::lz4_content;
use crate::schema::{schema_name_of, schema_text_of};
use crate::source::{ChannelInfo, Storage};
use crate::text::{decimal, found, lemma_found, lemma_found_whole, push_decimal, same};
use vstd::prelude::*;
use vstd::utf8::encode_utf8;

verus! {

// ------------------------------------------------------------------- capturing
/// The stream and the type of a channel, if that stream is recorded.
pub fn heard<'a>(selection: &Selection, channel: &'a str, prefix: &str, separator: char) -> (r:
    Option<(&'a str, &'a str)>)
    ensures
        ({
            let parts = channel_parts(channel@, prefix@, separator);
            if selection.records(parts.0) {
                r matches Some((stream, msg_name)) && (stream@, msg_name@) == parts
            } else {
                r is None
            }
        }),
{
    let (stream, msg_name): (&'a str, &'a str) = split_channel(channel, prefix, separator);
    if selection.wants(stream) {
        Some((stream, msg_name))
    } else {
        None
    }
}

/// A message that passed selection and is on its way to the file.
#[derive(Debug, PartialEq, Eq)]
pub struct Captured {
    pub stream: String,
    pub msg_name: String,
    pub payload: Vec<u8>,
    pub log_time_ns: i64,
    pub publish_time_ns: i64,
}

/// The stamp that a message is recognised by. A type with no stamp field cannot be told apart by time,
/// so the channel alone stands in for it during the loopback window.
pub open spec fn identity(stamp_ns: Option<i64>) -> i64 {
    match stamp_ns {
        Some(ns) => ns,
        None => 0,
    }
}

fn identify(stamp_ns: Option<i64>) -> (r: i64)
    ensures
        r == identity(stamp_ns),
{
    match stamp_ns {
        Some(ns) => ns,
        None => 0,
    }
}

/// Notes a message that the replay publishes, so that it is recognised on the way back in.
pub fn note_published(ours: &mut SelfPublished, channel: &str, stamp_ns: Option<i64>, now_ns: u64)
    requires
        old(ours).wf(),
    ensures
        final(ours).wf(),
        noted(old(ours).order@, channel@, identity(stamp_ns), now_ns, final(ours).order@),
{
    ours.note(channel, identify(stamp_ns), now_ns);
}

/// Takes a message in, unless it is one of our own. Its publish time is its own stamp, or else the time
/// at which it came in.
pub fn take_in(
    ours: &mut SelfPublished,
    channel: &str,
    parts: (&str, &str),
    payload: Vec<u8>,
    stamp_ns: Option<i64>,
    log_time_ns: i64,
    now_ns: u64,
) -> (r: Option<Captured>)
    requires
        old(ours).wf(),
    ensures
        final(ours).wf(),
        final(ours).order@ == remembered(old(ours).order@, now_ns),
        if among(final(ours).order@, channel@, identity(stamp_ns)) {
            r is None
        } else {
            r matches Some(captured) && {
                &&& captured.stream@ == parts.0@
                &&& captured.msg_name@ == parts.1@
                &&& captured.payload == payload
                &&& captured.log_time_ns == log_time_ns
                &&& captured.publish_time_ns == (match stamp_ns {
                    Some(ns) => ns,
                    None => log_time_ns,
                })
            }
        },
{
    if ours.claims(channel, identify(stamp_ns), now_ns) {
        return None;
    }
    Some(
        Captured {
            stream: parts.0.to_owned(),
            msg_name: parts.1.to_owned(),
            payload,
            log_time_ns,
            publish_time_ns: match stamp_ns {
                Some(ns) => ns,
                None => log_time_ns,
            },
        },
    )
}

// -------------------------------------------------------------------- counting
/// How many messages of a stream something happened to, and why to the first of them.
#[derive(Debug, PartialEq, Eq)]
pub struct Lost {
    pub count: u64,
    pub why: String,
}

/// What happened to how many messages of each stream.
pub open spec fn losses(table: Table<Lost>) -> Map<Seq<char>, (u64, Seq<char>)> {
    Map::new(
        |stream: Seq<char>| table@.contains_key(stream),
        |stream: Seq<char>| (table@[stream].count, table@[stream].why@),
    )
}

/// The same with one more message. The reason stays that of the first.
pub open spec fn one_more(
    losses: Map<Seq<char>, (u64, Seq<char>)>,
    stream: Seq<char>,
    why: Seq<char>,
) -> Map<Seq<char>, (u64, Seq<char>)> {
    if losses.contains_key(stream) {
        losses.insert(stream, ((losses[stream].0 + 1) as u64, losses[stream].1))
    } else {
        losses.insert(stream, (1, why))
    }
}

/// Whether one more can be counted for every stream.
pub open spec fn losses_have_room(table: Table<Lost>) -> bool {
    forall|stream: Seq<char>|
        table@.contains_key(stream) ==> (#[trigger] table@[stream]).count < u64::MAX
}

fn count_lost(table: &mut Table<Lost>, stream: &String, why: String)
    requires
        old(table).wf(),
        losses_have_room(*old(table)),
    ensures
        final(table).wf(),
        losses(*final(table)) == one_more(losses(*old(table)), stream@, why@),
{
    let ghost reason = why@;
    let i: usize = table.ensure(stream.clone(), Lost { count: 0, why });
    let lost: &mut Lost = table.value_mut(i);
    lost.count = lost.count + 1;
    assert(losses(*table) =~= one_more(losses(*old(table)), stream@, reason));
}

/// What went into the file.
#[derive(Debug, PartialEq, Eq)]
pub struct Written {
    pub messages: u64,
    pub by_stream: Table<u64>,
    /// Streams whose payloads would not transcode, with how many were lost and why the first one was.
    /// Silence here would look like a quiet stream.
    pub unencodable: Table<Lost>,
    /// Streams that were written but in a shape a viewer cannot draw. These are in the file and decode
    /// fine, so nothing else would ever flag them.
    pub unrenderable: Table<Lost>,
}

/// How many messages of a stream went into the file.
pub open spec fn tally_of(counts: Map<Seq<char>, u64>, stream: Seq<char>) -> int {
    if counts.contains_key(stream) {
        counts[stream] as int
    } else {
        0
    }
}

impl Written {
    pub open spec fn wf(self) -> bool {
        &&& self.by_stream.wf()
        &&& self.unencodable.wf()
        &&& self.unrenderable.wf()
    }

    /// Whether one more message can be counted.
    pub open spec fn has_room(self) -> bool {
        &&& self.messages < u64::MAX
        &&& forall|stream: Seq<char>|
            self.by_stream@.contains_key(stream) ==> #[trigger] self.by_stream@[stream] < u64::MAX
        &&& losses_have_room(self.unencodable)
        &&& losses_have_room(self.unrenderable)
    }

    pub fn new() -> (r: Self)
        ensures
            r.wf(),
            r.messages == 0,
            r.by_stream@ == Map::<Seq<char>, u64>::empty(),
            losses(r.unencodable) == Map::<Seq<char>, (u64, Seq<char>)>::empty(),
            losses(r.unrenderable) == Map::<Seq<char>, (u64, Seq<char>)>::empty(),
            r.by_stream.keys@.len() == 0,
            r.unencodable.keys@.len() == 0,
            r.unrenderable.keys@.len() == 0,
            r.has_room(),
    {
        let unencodable: Table<Lost> = Table::new();
        let unrenderable: Table<Lost> = Table::new();
        assert(losses(unencodable) =~= Map::empty());
        assert(losses(unrenderable) =~= Map::empty());
        Written { messages: 0, by_stream: Table::new(), unencodable, unrenderable }
    }

    /// Counts a message that went into the file.
    pub fn wrote(&mut self, stream: &String)
        requires
            old(self).wf(),
            old(self).has_room(),
        ensures
            final(self).wf(),
            final(self).messages == old(self).messages + 1,
            final(self).by_stream@ == old(self).by_stream@.insert(
                stream@,
                (tally_of(old(self).by_stream@, stream@) + 1) as u64,
            ),
            final(self).unencodable == old(self).unencodable,
            final(self).unrenderable == old(self).unrenderable,
    {
        self.messages = self.messages + 1;
        let i: usize = self.by_stream.ensure(stream.clone(), 0);
        let count: &mut u64 = self.by_stream.value_mut(i);
        *count = *count + 1;
        assert(self.by_stream@ =~= old(self).by_stream@.insert(
            stream@,
            (tally_of(old(self).by_stream@, stream@) + 1) as u64,
        ));
    }
}

// --------------------------------------------------------------------- writing
/// A channel of the file.
#[derive(Debug, PartialEq, Eq)]
pub struct Registered {
    pub id: u16,
    /// The type that the channel was registered with.
    pub msg_name: String,
    /// The sequence number of the last message.
    pub sequence: u32,
}

/// A channel that is to be added to the file.
#[derive(Debug, PartialEq, Eq)]
pub struct NewChannel {
    pub topic: String,
    pub schema: Option<Schema>,
    pub message_encoding: String,
    pub metadata: Table<String>,
}

/// What stands before the payload of a message in the file.
#[derive(Clone, Copy, Debug, PartialEq, Eq, Structural)]
pub struct MessageHeader {
    pub channel_id: u16,
    pub sequence: u32,
    pub log_time: u64,
    pub publish_time: u64,
}

/// A message that waits for its channel.
#[derive(Debug, PartialEq, Eq)]
pub struct Pending {
    pub stream: String,
    pub msg_name: String,
    pub data: Vec<u8>,
    pub log_time: u64,
    pub publish_time: u64,
}

/// What is to be done with a message.
#[derive(Debug, PartialEq, Eq)]
pub enum Step {
    /// Nothing: it was counted as lost.
    Dropped,
    /// Write it to a channel of the file.
    Write { stream: String, header: MessageHeader, data: Vec<u8> },
    /// Add a channel to the file, and come back with its id.
    Register { channel: NewChannel, pending: Pending },
}

/// A time as the file holds it: none before the epoch.
pub open spec fn file_time(ns: i64) -> u64 {
    if ns < 0 {
        0
    } else {
        ns as u64
    }
}

fn to_file_time(ns: i64) -> (r: u64)
    ensures
        r == file_time(ns),
{
    if ns < 0 {
        0
    } else {
        ns as u64
    }
}

/// What is said of a stream whose type changed.
pub open spec fn type_change(msg_name: Seq<char>) -> Seq<char> {
    "stream changed type to "@ + msg_name + " mid-capture"@
}

/// Whether a channel is what a stream of that type and codec is to be recorded in.
pub open spec fn describes(
    channel: NewChannel,
    stream: Seq<char>,
    codec: Codec,
    msg_name: Seq<char>,
) -> bool {
    &&& channel.topic@ == stream
    &&& channel.message_encoding@ == codec.name()
    &&& channel.metadata.wf()
    &&& texts_of(channel.metadata) == metadata_of(stream, msg_name)
    &&& match (codec, type_named(msg_name)) {
        (Codec::Cdr, Some(message_type)) => channel.schema matches Some(schema) && schema.name@
            == schema_name_of(message_type) && schema.encoding@ == "ros2msg"@ && schema.data@
            == encode_utf8(schema_text_of(message_type)),
        _ => channel.schema is None,
    }
}

/// The state of a capture: its channels, and what was counted.
#[derive(Debug, PartialEq, Eq)]
pub struct Log {
    pub codecs: Table<Codec>,
    pub default_codec: Codec,
    pub written: Written,
    pub channels: Table<Registered>,
}

impl Log {
    pub open spec fn wf(self) -> bool {
        &&& self.codecs.wf()
        &&& self.written.wf()
        &&& self.channels.wf()
    }

    /// Whether one more message can be counted and numbered.
    pub open spec fn has_room(self) -> bool {
        &&& self.written.has_room()
        &&& forall|stream: Seq<char>|
            self.channels@.contains_key(stream) ==> (#[trigger] self.channels@[stream]).sequence
                < u32::MAX
    }

    /// The codec that a stream is stored with, whatever its type.
    pub open spec fn chosen(self, stream: Seq<char>) -> Codec {
        if self.codecs@.contains_key(stream) {
            self.codecs@[stream]
        } else {
            self.default_codec
        }
    }

    /// The codec that a stream of some type is stored with.
    pub open spec fn codec(self, stream: Seq<char>, msg_name: Seq<char>) -> Codec {
        self.chosen(stream).resolved(msg_name)
    }

    pub fn new(codecs: Table<Codec>, default_codec: Codec) -> (r: Self)
        requires
            codecs.wf(),
        ensures
            r.wf(),
            r.has_room(),
            r.codecs == codecs,
            r.default_codec == default_codec,
            r.channels@ == Map::<Seq<char>, Registered>::empty(),
            r.written.messages == 0,
            r.written.by_stream@ == Map::<Seq<char>, u64>::empty(),
            losses(r.written.unencodable) == Map::<Seq<char>, (u64, Seq<char>)>::empty(),
            losses(r.written.unrenderable) == Map::<Seq<char>, (u64, Seq<char>)>::empty(),
    {
        Log { codecs, default_codec, written: Written::new(), channels: Table::new() }
    }

    /// The codec that a message is to be stored with.
    pub fn codec_for(&self, stream: &str, msg_name: &str) -> (r: Codec)
        requires
            self.wf(),
        ensures
            r == self.codec(stream@, msg_name@),
    {
        let chosen: Codec = match self.codecs.find(stream) {
            Some(i) => self.codecs.vals[i],
            None => self.default_codec,
        };
        chosen.resolve(msg_name)
    }

    /// What becomes of a message: the log before it, the log after it and what is to be done.
    pub open spec fn takes(
        before: Log,
        after: Log,
        message: Captured,
        decoded: Result<Message, String>,
        step: Step,
    ) -> bool {
        let stream = message.stream@;
        let codec = before.codec(stream, message.msg_name@);
        let lost = losses(before.written.unencodable);
        let odd = losses(before.written.unrenderable);
        &&& after.codecs == before.codecs
        &&& after.default_codec == before.default_codec
        &&& after.written.messages == before.written.messages
        &&& after.written.by_stream == before.written.by_stream
        &&& match stored_as(codec, message.msg_name@, decoded) {
            Err(why) => {
                // One malformed payload costs that message, not the rest of the capture.
                &&& step is Dropped
                &&& losses(after.written.unencodable) == one_more(lost, stream, why)
                &&& after.written.unrenderable == before.written.unrenderable
                &&& after.channels == before.channels
            },
            Ok((name, defect)) => {
                &&& losses(after.written.unrenderable) == (match defect {
                    Some(why) => one_more(odd, stream, why),
                    None => odd,
                })
                &&& if before.channels@.contains_key(stream) {
                    let channel = before.channels@[stream];
                    if channel.msg_name@ != name {
                        &&& step is Dropped
                        &&& losses(after.written.unencodable) == one_more(
                            lost,
                            stream,
                            type_change(name),
                        )
                        &&& after.channels == before.channels
                    } else {
                        &&& step matches Step::Write { stream: s, header, data } && s@ == stream
                            && stores(codec, message.payload@, decoded, data@) && header == (
                        MessageHeader {
                            channel_id: channel.id,
                            sequence: (channel.sequence + 1) as u32,
                            log_time: file_time(message.log_time_ns),
                            publish_time: file_time(message.publish_time_ns),
                        })
                        &&& after.channels@ == before.channels@.insert(
                            stream,
                            Registered { sequence: (channel.sequence + 1) as u32, ..channel },
                        )
                        &&& after.written.unencodable == before.written.unencodable
                    }
                } else {
                    &&& step matches Step::Register { channel, pending } && describes(
                        channel,
                        stream,
                        codec,
                        name,
                    ) && pending.stream@ == stream && pending.msg_name@ == name && stores(
                        codec,
                        message.payload@,
                        decoded,
                        pending.data@,
                    ) && pending.log_time == file_time(message.log_time_ns)
                        && pending.publish_time == file_time(message.publish_time_ns)
                    &&& after.channels == before.channels
                    &&& after.written.unencodable == before.written.unencodable
                }
            },
        }
    }

    /// Decides about a captured message. Encoding comes first because it is what settles the recorded
    /// type: the schema of a channel has to be the one the payloads actually match. `decoded` is what
    /// the payload decodes to; only CDR looks at it.
    pub fn take(&mut self, message: Captured, decoded: Result<Message, String>) -> (step: Step)
        requires
            old(self).wf(),
            old(self).has_room(),
            old(self).codec(message.stream@, message.msg_name@) == Codec::Cdr ==> (
            decoded matches Ok(m) ==> writable(m.content())),
        ensures
            final(self).wf(),
            Log::takes(*old(self), *final(self), message, decoded, step),
    {
        let codec: Codec = self.codec_for(message.stream.as_str(), message.msg_name.as_str());
        let log_time: u64 = to_file_time(message.log_time_ns);
        let publish_time: u64 = to_file_time(message.publish_time_ns);
        let stream: String = message.stream;
        match codec.encode(message.msg_name.as_str(), message.payload, decoded) {
            Err(error) => {
                count_lost(&mut self.written.unencodable, &stream, error.message());
                Step::Dropped
            },
            Ok((name, data, defect)) => {
                match defect {
                    Some(why) => count_lost(&mut self.written.unrenderable, &stream, why),
                    None => {},
                }
                match self.channels.find(stream.as_str()) {
                    Some(i) => {
                        if !same(self.channels.vals[i].msg_name.as_str(), name) {
                            let mut why: String = "stream changed type to ".to_owned();
                            why.append(name);
                            why.append(" mid-capture");
                            count_lost(&mut self.written.unencodable, &stream, why);
                            return Step::Dropped;
                        }
                        let channel: &mut Registered = self.channels.value_mut(i);
                        channel.sequence = channel.sequence + 1;
                        let header: MessageHeader = MessageHeader {
                            channel_id: channel.id,
                            sequence: channel.sequence,
                            log_time,
                            publish_time,
                        };
                        Step::Write { stream, header, data }
                    },
                    None => {
                        let channel: NewChannel = NewChannel {
                            topic: stream.clone(),
                            schema: schema_for(codec, name),
                            message_encoding: codec.id().to_owned(),
                            metadata: channel_metadata(stream.as_str(), name),
                        };
                        let pending: Pending = Pending {
                            stream,
                            msg_name: name.to_owned(),
                            data,
                            log_time,
                            publish_time,
                        };
                        Step::Register { channel, pending }
                    },
                }
            },
        }
    }

    /// Notes the channel that was added for a waiting message, which is then the first of it.
    pub fn registered(&mut self, pending: Pending, id: u16) -> (r: (String, MessageHeader, Vec<u8>))
        requires
            old(self).wf(),
            !old(self).channels@.contains_key(pending.stream@),
        ensures
            final(self).wf(),
            final(self).codecs == old(self).codecs,
            final(self).default_codec == old(self).default_codec,
            final(self).written == old(self).written,
            final(self).channels@.dom() == old(self).channels@.dom().insert(pending.stream@),
            forall|stream: Seq<char>|
                old(self).channels@.contains_key(stream) ==> #[trigger] final(self).channels@[stream]
                    == old(self).channels@[stream],
            final(self).channels@[pending.stream@].id == id,
            final(self).channels@[pending.stream@].msg_name@ == pending.msg_name@,
            final(self).channels@[pending.stream@].sequence == 1,
            r.0@ == pending.stream@,
            r.1 == (MessageHeader {
                channel_id: id,
                sequence: 1,
                log_time: pending.log_time,
                publish_time: pending.publish_time,
            }),
            r.2 == pending.data,
    {
        let channel: Registered = Registered { id, msg_name: pending.msg_name, sequence: 1 };
        let ghost held = self.channels@;
        let i: usize = self.channels.ensure(pending.stream.clone(), channel);
        assert(self.channels@.dom() =~= held.dom().insert(pending.stream@));
        let header: MessageHeader = MessageHeader {
            channel_id: id,
            sequence: 1,
            log_time: pending.log_time,
            publish_time: pending.publish_time,
        };
        (pending.stream, header, pending.data)
    }
}

/// A channel keeps its id and its type for as long as the capture lasts, and numbers its messages
/// without a gap.
pub proof fn law_channels_stay_what_they_are(
    before: Log,
    after: Log,
    message: Captured,
    decoded: Result<Message, String>,
    step: Step,
    stream: Seq<char>,
)
    requires
        Log::takes(before, after, message, decoded, step),
        before.has_room(),
        before.channels@.contains_key(stream),
    ensures
        after.channels@.contains_key(stream),
        after.channels@[stream].id == before.channels@[stream].id,
        after.channels@[stream].msg_name == before.channels@[stream].msg_name,
        after.channels@[stream].sequence == before.channels@[stream].sequence + (if step is Write
            && message.stream@ == stream {
            1int
        } else {
            0int
        }),
{
}

/// A message is written, waits for its channel, or is counted as lost, and nothing else.
pub proof fn law_no_message_is_lost_in_silence(
    before: Log,
    after: Log,
    message: Captured,
    decoded: Result<Message, String>,
    step: Step,
)
    requires
        Log::takes(before, after, message, decoded, step),
        before.has_room(),
        before.wf(),
    ensures
        step is Dropped ==> {
            &&& losses(after.written.unencodable).contains_key(message.stream@)
            &&& losses(after.written.unencodable)[message.stream@].0 == 1 + (if losses(
                before.written.unencodable,
            ).contains_key(message.stream@) {
                losses(before.written.unencodable)[message.stream@].0 as int
            } else {
                0
            })
        },
        step !is Dropped ==> losses(after.written.unencodable) == losses(
            before.written.unencodable,
        ),
{
    assert(losses(before.written.unencodable).contains_key(message.stream@) ==> losses(
        before.written.unencodable,
    )[message.stream@].0 == before.written.unencodable@[message.stream@].count);
}

// --------------------------------------------------------------------- report
/// One line for each stream that went into the file.
pub open spec fn count_lines(streams: Seq<Seq<char>>, counts: Seq<u64>) -> Seq<char>
    decreases streams.len(),
{
    if streams.len() == 0 {
        Seq::empty()
    } else {
        count_lines(streams.drop_last(), counts.drop_last()) + ("  "@ + streams.last() + ": "@
            + decimal(counts.last() as nat) + "\n"@)
    }
}

/// One line for each stream that something happened to.
pub open spec fn loss_lines(streams: Seq<Seq<char>>, lost: Seq<Lost>, fate: Seq<char>) -> Seq<char>
    decreases streams.len(),
{
    if streams.len() == 0 {
        Seq::empty()
    } else {
        loss_lines(streams.drop_last(), lost.drop_last(), fate) + ("  "@ + streams.last() + ": "@
            + decimal(lost.last().count as nat) + " message(s) "@ + fate + ", "@ + lost.last().why@
            + "\n"@)
    }
}

/// The report on a capture. Streams come in ascending order.
pub open spec fn capture_report(written: Written, path: Seq<char>) -> Seq<char> {
    "recorded "@ + decimal(written.messages as nat) + " message(s) to "@ + path + "\n"@
        + count_lines(written.by_stream.keys@, written.by_stream.vals@) + loss_lines(
        written.unencodable.keys@,
        written.unencodable.vals@,
        "dropped"@,
    ) + loss_lines(written.unrenderable.keys@, written.unrenderable.vals@, "unrenderable"@)
}

fn push_counts(out: &mut String, table: &Table<u64>)
    requires
        table.wf(),
    ensures
        final(out)@ == old(out)@ + count_lines(table.keys@, table.vals@),
{
    let ghost keys = table.keys@;
    let ghost vals = table.vals@;
    let mut i: usize = 0;
    assert(keys.take(0) =~= Seq::empty());
    assert(out@ =~= old(out)@ + count_lines(keys.take(0), vals.take(0)));
    while i < table.vals.len()
        invariant
            table.wf(),
            i <= vals.len(),
            keys == table.keys@,
            vals == table.vals@,
            out@ == old(out)@ + count_lines(keys.take(i as int), vals.take(i as int)),
        decreases vals.len() - i,
    {
        let ghost before = out@;
        assert(keys[i as int] == table.keys.items@[i as int]@);
        out.append("  ");
        out.append(table.keys.items[i].as_str());
        out.append(": ");
        push_decimal(out, table.vals[i]);
        out.append("\n");
        assert(keys.take(i + 1).drop_last() =~= keys.take(i as int));
        assert(vals.take(i + 1).drop_last() =~= vals.take(i as int));
        assert(out@ =~= before + ("  "@ + keys[i as int] + ": "@ + decimal(vals[i as int] as nat)
            + "\n"@));
        assert(out@ =~= old(out)@ + count_lines(keys.take(i + 1), vals.take(i + 1)));
        i = i + 1;
    }
    assert(keys.take(i as int) =~= keys);
    assert(vals.take(i as int) =~= vals);
}

fn push_losses(out: &mut String, table: &Table<Lost>, fate: &str)
    requires
        table.wf(),
    ensures
        final(out)@ == old(out)@ + loss_lines(table.keys@, table.vals@, fate@),
{
    let ghost keys = table.keys@;
    let ghost vals = table.vals@;
    let mut i: usize = 0;
    assert(keys.take(0) =~= Seq::empty());
    assert(out@ =~= old(out)@ + loss_lines(keys.take(0), vals.take(0), fate@));
    while i < table.vals.len()
        invariant
            table.wf(),
            i <= vals.len(),
            keys == table.keys@,
            vals == table.vals@,
            out@ == old(out)@ + loss_lines(keys.take(i as int), vals.take(i as int), fate@),
        decreases vals.len() - i,
    {
        let ghost before = out@;
        assert(keys[i as int] == table.keys.items@[i as int]@);
        out.append("  ");
        out.append(table.keys.items[i].as_str());
        out.append(": ");
        push_decimal(out, table.vals[i].count);
        out.append(" message(s) ");
        out.append(fate);
        out.append(", ");
        out.append(table.vals[i].why.as_str());
        out.append("\n");
        assert(keys.take(i + 1).drop_last() =~= keys.take(i as int));
        assert(vals.take(i + 1).drop_last() =~= vals.take(i as int));
        assert(out@ =~= before + ("  "@ + keys[i as int] + ": "@ + decimal(
            vals[i as int].count as nat,
        ) + " message(s) "@ + fate@ + ", "@ + vals[i as int].why@ + "\n"@));
        assert(out@ =~= old(out)@ + loss_lines(keys.take(i + 1), vals.take(i + 1), fate@));
        i = i + 1;
    }
    assert(keys.take(i as int) =~= keys);
    assert(vals.take(i as int) =~= vals);
}

impl Written {
    /// What went into the file, and what did not.
    pub fn report(&self, path: &str) -> (r: String)
        requires
            self.wf(),
        ensures
            r@ == capture_report(*self, path@),
    {
        let mut report: String = "recorded ".to_owned();
        push_decimal(&mut report, self.messages);
        report.append(" message(s) to ");
        report.append(path);
        report.append("\n");
        push_counts(&mut report, &self.by_stream);
        push_losses(&mut report, &self.unencodable, "dropped");
        push_losses(&mut report, &self.unrenderable, "unrenderable");
        report
    }
}

// ----------------------------------------------------------------------- laws
proof fn lemma_count_found(streams: Seq<Seq<char>>, counts: Seq<u64>, i: int)
    requires
        streams.len() == counts.len(),
        0 <= i < streams.len(),
    ensures
        found(
            count_lines(streams, counts),
            "  "@ + streams[i] + ": "@ + decimal(counts[i] as nat) + "\n"@,
        ),
    decreases streams.len(),
{
    let line = "  "@ + streams[i] + ": "@ + decimal(counts[i] as nat) + "\n"@;
    let earlier = count_lines(streams.drop_last(), counts.drop_last());
    let last = "  "@ + streams.last() + ": "@ + decimal(counts.last() as nat) + "\n"@;
    assert(count_lines(streams, counts) =~= earlier + last + Seq::empty());
    assert(count_lines(streams, counts) =~= Seq::<char>::empty() + earlier + last);
    if i == streams.len() - 1 {
        lemma_found_whole(last);
        lemma_found(earlier, last, Seq::empty(), last);
    } else {
        lemma_count_found(streams.drop_last(), counts.drop_last(), i);
        lemma_found(Seq::empty(), earlier, last, line);
    }
}

/// The line on what happened to messages of a stream.
pub open spec fn loss_line(stream: Seq<char>, lost: Lost, fate: Seq<char>) -> Seq<char> {
    "  "@ + stream + ": "@ + decimal(lost.count as nat) + " message(s) "@ + fate + ", "@ + lost.why@
        + "\n"@
}

proof fn lemma_loss_found(streams: Seq<Seq<char>>, lost: Seq<Lost>, fate: Seq<char>, i: int)
    requires
        streams.len() == lost.len(),
        0 <= i < streams.len(),
    ensures
        found(loss_lines(streams, lost, fate), loss_line(streams[i], lost[i], fate)),
    decreases streams.len(),
{
    let earlier = loss_lines(streams.drop_last(), lost.drop_last(), fate);
    let last = loss_line(streams.last(), lost.last(), fate);
    assert(loss_lines(streams, lost, fate) =~= earlier + last + Seq::empty());
    assert(loss_lines(streams, lost, fate) =~= Seq::<char>::empty() + earlier + last);
    if i == streams.len() - 1 {
        lemma_found_whole(last);
        lemma_found(earlier, last, Seq::empty(), last);
    } else {
        lemma_loss_found(streams.drop_last(), lost.drop_last(), fate, i);
        lemma_found(Seq::empty(), earlier, last, loss_line(streams[i], lost[i], fate));
    }
}

/// The report opens with how many messages went to which file, and has a line for each stream that went
/// there, for each that lost messages, and for each with messages that a viewer cannot draw.
pub proof fn law_the_report_accounts_for_every_stream(written: Written, path: Seq<char>, i: int)
    requires
        written.wf(),
        0 <= i,
    ensures
        ({
            let report = capture_report(written, path);
            let counts = written.by_stream;
            let lost = written.unencodable;
            let odd = written.unrenderable;
            &&& ("recorded "@ + decimal(written.messages as nat) + " message(s) to "@ + path
                + "\n"@).is_prefix_of(report)
            &&& i < counts.keys@.len() ==> found(
                report,
                "  "@ + counts.keys@[i] + ": "@ + decimal(counts.vals@[i] as nat) + "\n"@,
            )
            &&& i < lost.keys@.len() ==> found(
                report,
                loss_line(lost.keys@[i], lost.vals@[i], "dropped"@),
            )
            &&& i < odd.keys@.len() ==> found(
                report,
                loss_line(odd.keys@[i], odd.vals@[i], "unrenderable"@),
            )
        }),
{
    let report = capture_report(written, path);
    let head = "recorded "@ + decimal(written.messages as nat) + " message(s) to "@ + path + "\n"@;
    let counts = count_lines(written.by_stream.keys@, written.by_stream.vals@);
    let lost = loss_lines(written.unencodable.keys@, written.unencodable.vals@, "dropped"@);
    let odd = loss_lines(
        written.unrenderable.keys@,
        written.unrenderable.vals@,
        "unrenderable"@,
    );
    assert(head =~= report.subrange(0, head.len() as int));
    if i < written.by_stream.keys@.len() {
        lemma_count_found(written.by_stream.keys@, written.by_stream.vals@, i);
        lemma_found(
            head,
            counts,
            lost + odd,
            "  "@ + written.by_stream.keys@[i] + ": "@ + decimal(written.by_stream.vals@[i] as nat)
                + "\n"@,
        );
        assert(report =~= head + counts + (lost + odd));
    }
    if i < written.unencodable.keys@.len() {
        lemma_loss_found(written.unencodable.keys@, written.unencodable.vals@, "dropped"@, i);
        lemma_found(
            head + counts,
            lost,
            odd,
            loss_line(written.unencodable.keys@[i], written.unencodable.vals@[i], "dropped"@),
        );
        assert(report =~= head + counts + lost + odd);
    }
    if i < written.unrenderable.keys@.len() {
        lemma_loss_found(
            written.unrenderable.keys@,
            written.unrenderable.vals@,
            "unrenderable"@,
            i,
        );
        lemma_found(
            head + counts + lost,
            odd,
            Seq::empty(),
            loss_line(
                written.unrenderable.keys@[i],
                written.unrenderable.vals@[i],
                "unrenderable"@,
            ),
        );
        assert(report =~= head + counts + lost + odd + Seq::empty());
    }
}

/// A stream is stored with the codec that was chosen for it, or else with the one chosen for all; only a
/// type without a CDR form is stored as its wire bytes where CDR was chosen.
pub proof fn law_streams_are_stored_as_chosen(log: Log, stream: Seq<char>, msg_name: Seq<char>)
    ensures
        log.codecs@.contains_key(stream) ==> log.chosen(stream) == log.codecs@[stream],
        !log.codecs@.contains_key(stream) ==> log.chosen(stream) == log.default_codec,
        log.chosen(stream) != Codec::Cdr ==> log.codec(stream, msg_name) == log.chosen(stream),
        type_named(msg_name) is Some ==> log.codec(stream, msg_name) == log.chosen(stream),
        type_named(msg_name) is None ==> log.codec(stream, msg_name) != Codec::Cdr,
{
}

/// Times after the epoch go into the file as they are, others as the epoch.
pub proof fn law_times_in_the_file_are_not_before_the_epoch(ns: i64)
    ensures
        ns >= 0 ==> file_time(ns) == ns,
        ns < 0 ==> file_time(ns) == 0,
{
}

/// One more loss counts one up for its stream and for no other, and the reason that is told stays that
/// of the first.
pub proof fn law_losses_are_counted_by_stream(
    losses: Map<Seq<char>, (u64, Seq<char>)>,
    stream: Seq<char>,
    why: Seq<char>,
    other: Seq<char>,
)
    requires
        losses.contains_key(stream) ==> losses[stream].0 < u64::MAX,
    ensures
        ({
            let more = one_more(losses, stream, why);
            &&& more.contains_key(stream)
            &&& losses.contains_key(stream) ==> more[stream].0 == losses[stream].0 + 1
                && more[stream].1 == losses[stream].1
            &&& !losses.contains_key(stream) ==> more[stream] == (1u64, why)
            &&& other != stream ==> more.contains_key(other) == losses.contains_key(other)
            &&& other != stream && losses.contains_key(other) ==> more[other] == losses[other]
        }),
{
}

/// What goes into the file of a message is its payload as the codec of its stream stores it, the time at
/// which it came in and the time at which it was published; and it is the next of its channel.
pub proof fn law_messages_keep_their_payload_and_their_times(
    before: Log,
    after: Log,
    message: Captured,
    decoded: Result<Message, String>,
    step: Step,
)
    requires
        Log::takes(before, after, message, decoded, step),
        before.has_room(),
        message.log_time_ns >= 0,
        message.publish_time_ns >= 0,
    ensures
        ({
            let codec = before.codec(message.stream@, message.msg_name@);
            &&& step matches Step::Write { stream, header, data } ==> {
                &&& stream@ == message.stream@
                &&& before.channels@.contains_key(stream@)
                &&& header.channel_id == before.channels@[stream@].id
                &&& header.sequence == before.channels@[stream@].sequence + 1
                &&& header.log_time == message.log_time_ns
                &&& header.publish_time == message.publish_time_ns
                &&& codec == Codec::Lcm ==> data@ == message.payload@
                &&& codec == Codec::Lz4Lcm ==> lz4_content(data@) == Ok::<Seq<u8>, Seq<char>>(
                    message.payload@,
                )
                &&& codec != Codec::Cdr ==> before.channels@[stream@].msg_name@ == message.msg_name@
            }
            &&& step matches Step::Register { channel, pending } ==> {
                &&& pending.stream@ == message.stream@
                &&& !before.channels@.contains_key(message.stream@)
                &&& channel.topic@ == message.stream@
                &&& pending.log_time == message.log_time_ns
                &&& pending.publish_time == message.publish_time_ns
                &&& codec == Codec::Lcm ==> pending.data@ == message.payload@
                &&& codec == Codec::Lz4Lcm ==> lz4_content(pending.data@) == Ok::<
                    Seq<u8>,
                    Seq<char>,
                >(message.payload@)
                &&& codec != Codec::Cdr ==> pending.msg_name@ == message.msg_name@
            }
            &&& codec != Codec::Cdr ==> (step is Dropped <==> before.channels@.contains_key(
                message.stream@,
            ) && before.channels@[message.stream@].msg_name@ != message.msg_name@)
        }),
{
}

/// A channel that is added to the file reads back as the stream and the type that it was added for.
pub proof fn law_added_channels_read_back(
    channel: NewChannel,
    info: ChannelInfo,
    stream: Seq<char>,
    codec: Codec,
    msg_name: Seq<char>,
)
    requires
        describes(channel, stream, codec, msg_name),
        info.topic == channel.topic,
        info.message_encoding == channel.message_encoding,
        info.metadata == channel.metadata,
        match channel.schema {
            Some(schema) => info.schema_name == Some(schema.name),
            None => info.schema_name is None,
        },
    ensures
        info.stream_name() == stream,
        codec == Codec::Cdr && type_named(msg_name) is Some ==> info.content() == (
            msg_name,
            Storage::Cdr,
        ),
        codec == Codec::Lcm && module_of(msg_name) is Some ==> info.content() == (
            msg_name,
            Storage::Wire,
        ),
{
    law_recorded_channels_read_back(info, stream, msg_name);
}

/// What is said of a stream whose type changed names the new type.
pub proof fn law_a_changed_type_is_named(msg_name: Seq<char>)
    ensures
        found(type_change(msg_name), msg_name),
{
    lemma_found_whole(msg_name);
    lemma_found("stream changed type to "@, msg_name, " mid-capture"@, msg_name);
}

/// Messages with different stamps are told apart; those without one all count as the same.
pub proof fn law_messages_are_told_apart_by_their_stamps(a: i64, b: i64)
    ensures
        identity(Some(a)) == identity(Some(b)) <==> a == b,
        identity(Some(a)) == a,
        identity(None) == 0,
{
}

/// One more message of a stream counts one up for it and for no other.
pub proof fn law_messages_are_counted_by_stream(
    counts: Map<Seq<char>, u64>,
    stream: Seq<char>,
    other: Seq<char>,
)
    requires
        tally_of(counts, stream) < u64::MAX,
    ensures
        ({
            let more = counts.insert(stream, (tally_of(counts, stream) + 1) as u64);
            &&& tally_of(more, stream) == tally_of(counts, stream) + 1
            &&& other != stream ==> tally_of(more, other) == tally_of(counts, other)
            &&& !counts.contains_key(other) ==> tally_of(counts, other) == 0
            &&& counts.contains_key(other) ==> tally_of(counts, other) == counts[other]
        }),
{
}

} // verus!
