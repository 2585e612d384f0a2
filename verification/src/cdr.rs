//! Turning ROS 2 CDR payloads into messages and back.
//!
//! Recordings store ROS 2 messages in CDR, which no LCM subscriber understands. Each supported type
//! is read field by field into a plain message, which is what goes onto the wire and comes off it.
//!
//! ROS 2's Header has no `seq`, so `header.seq` is left at 0 when reading and dropped when writing.
pub mod layout;
pub mod members;
pub mod messages;
pub mod reader;
pub mod types;
pub mod writer;
use crate::text::{
    chars_of, decimal, found, lemma_found, lemma_found_whole, pieces, push_decimal, push_signed,
    same, signed_decimal, split_all, trim_end_char, views, without_trailing,
};
use layout::{
    chunk, chunks_fit, just, law_messages_are_read_from_no_more_than_they_need,
    law_written_messages_read_back, put_chunks, read_parts, small, Chunk, Field,
};
use members::{law_messages_stand_in_the_payload, stands_in};
use messages::{run_writable, writable, CompressedImage, Image, Run};
use reader::{body_of, declares_little_endian, Reader};
use types::{lemma_message_fits, type_named, Message, MessageType};
use vstd::prelude::*;
use vstd::utf8::{encode_utf8, is_ascii_chars, is_ascii_chars_encode_utf8};
use writer::{header_le, Writer};

verus! {

/// Why a payload could not be transcoded.
#[derive(Debug, PartialEq, Eq)]
pub enum CdrError {
    /// The payload is too short for its encapsulation header.
    HeaderTooShort,
    /// The payload ended before the last field.
    EndedEarly,
    /// The named type cannot be read.
    NoTranscoder(String),
    /// The named type cannot be written.
    NoEncoder(String),
    /// The wire bytes were rejected, with the decoder's own words.
    Undecodable(String),
    /// The wire bytes were decoded as another type than the one named.
    Mismatched,
}

impl CdrError {
    /// What the error reads like.
    pub open spec fn text(&self) -> Seq<char> {
        match self {
            CdrError::HeaderTooShort => "CDR payload is too short for its header"@,
            CdrError::EndedEarly => "CDR payload ended early"@,
            CdrError::NoTranscoder(name) => "no CDR transcoder for "@ + name@,
            CdrError::NoEncoder(name) => "no CDR encoder for "@ + name@,
            CdrError::Undecodable(why) => why@,
            CdrError::Mismatched => "decoded as another type"@,
        }
    }

    pub fn message(&self) -> (r: String)
        ensures
            r@ == self.text(),
    {
        match self {
            CdrError::HeaderTooShort => "CDR payload is too short for its header".to_owned(),
            CdrError::EndedEarly => "CDR payload ended early".to_owned(),
            CdrError::NoTranscoder(name) => {
                let mut text: String = "no CDR transcoder for ".to_owned();
                text.append(name.as_str());
                text
            },
            CdrError::NoEncoder(name) => {
                let mut text: String = "no CDR encoder for ".to_owned();
                text.append(name.as_str());
                text
            },
            CdrError::Undecodable(why) => why.clone(),
            CdrError::Mismatched => "decoded as another type".to_owned(),
        }
    }
}

// --------------------------------------------------------------------- naming
/// `s` with every `::`, from the left, made one `/`.
pub open spec fn slashed(s: Seq<char>) -> Seq<char>
    decreases s.len(),
{
    if s.len() == 0 {
        s
    } else if s.len() >= 2 && s[0] == ':' && s[1] == ':' {
        seq!['/'] + slashed(s.skip(2))
    } else {
        seq![s[0]] + slashed(s.skip(1))
    }
}

/// Whether a segment of a schema name says something about the type.
pub open spec fn tells(segment: Seq<char>) -> bool {
    segment != "msg"@ && segment != "dds_"@
}

/// `s` with every `/` made a `.`.
pub open spec fn dotted(s: Seq<char>) -> Seq<char> {
    s.map_values(
        |c: char|
            if c == '/' {
                '.'
            } else {
                c
            },
    )
}

/// The type that a schema names: its first two telling segments, the second without underscores at
/// its end. A name without two such segments only has its separators replaced.
pub open spec fn schema_type(schema: Seq<char>) -> Seq<char> {
    let segments = pieces(slashed(schema), '/').filter(|p: Seq<char>| tells(p));
    if segments.len() >= 2 {
        segments[0] + seq!['.'] + without_trailing(segments[1], '_')
    } else {
        dotted(slashed(schema))
    }
}

fn slash(schema: &str) -> (r: String)
    ensures
        r@ == slashed(schema@),
{
    let chars: Vec<char> = chars_of(schema);
    let mut out: String = String::new();
    let mut i: usize = 0;
    assert(schema@.skip(0) =~= schema@);
    while i < chars.len()
        invariant
            i <= chars.len(),
            chars@ == schema@,
            slashed(schema@) == out@ + slashed(schema@.skip(i as int)),
        decreases chars.len() - i,
    {
        let ghost rest = schema@.skip(i as int);
        let ghost before = out@;
        if chars[i] == ':' && i + 1 < chars.len() && chars[i + 1] == ':' {
            assert(rest.skip(2) =~= schema@.skip(i + 2));
            out.push('/');
            assert(out@ =~= before + seq!['/']);
            assert(before + (seq!['/'] + slashed(rest.skip(2))) =~= out@ + slashed(rest.skip(2)));
            i = i + 2;
        } else {
            assert(rest.skip(1) =~= schema@.skip(i + 1));
            out.push(chars[i]);
            assert(out@ =~= before + seq![rest[0]]);
            assert(before + (seq![rest[0]] + slashed(rest.skip(1))) =~= out@ + slashed(
                rest.skip(1),
            ));
            i = i + 1;
        }
    }
    assert(out@ + Seq::<char>::empty() =~= out@);
    assert(schema@.skip(i as int) =~= Seq::empty());
    out
}

fn dot(s: &str) -> (r: String)
    ensures
        r@ == dotted(s@),
{
    let chars: Vec<char> = chars_of(s);
    let mut out: String = String::new();
    let mut i: usize = 0;
    assert(dotted(s@).take(0) =~= Seq::empty());
    while i < chars.len()
        invariant
            i <= chars.len(),
            chars@ == s@,
            out@ == dotted(s@).take(i as int),
        decreases chars.len() - i,
    {
        if chars[i] == '/' {
            out.push('.');
        } else {
            out.push(chars[i]);
        }
        assert(out@ =~= dotted(s@).take(i + 1));
        i = i + 1;
    }
    assert(dotted(s@).take(i as int) =~= dotted(s@));
    out
}

/// Names the type that a ROS schema corresponds to.
///
/// rosbag2 writes `sensor_msgs/msg/Imu`; recordings taken straight off a DDS wire carry the IDL
/// spelling `sensor_msgs::msg::dds_::Imu_`.
pub fn msg_name_from_schema(schema: &str) -> (r: String)
    ensures
        r@ == schema_type(schema@),
{
    let flattened: String = slash(schema);
    let all: Vec<String> = split_all(flattened.as_str(), '/');
    let ghost tell = |p: Seq<char>| tells(p);
    let mut kept: Vec<String> = Vec::new();
    let mut i: usize = 0;
    proof {
        reveal(Seq::filter);
    }
    assert(views(all@).take(0).filter(tell) =~= Seq::empty());
    assert(views(kept@) =~= Seq::empty());
    while i < all.len()
        invariant
            i <= all.len(),
            tell == |p: Seq<char>| tells(p),
            views(kept@) == views(all@).take(i as int).filter(tell),
        decreases all.len() - i,
    {
        let ghost so_far = views(all@).take(i as int);
        let ghost held = views(kept@);
        assert(views(all@).take(i + 1) =~= so_far.push(all@[i as int]@));
        assert(so_far.push(all@[i as int]@).drop_last() =~= so_far);
        reveal(Seq::filter);
        if !same(all[i].as_str(), "msg") && !same(all[i].as_str(), "dds_") {
            kept.push(all[i].clone());
            assert(views(kept@) =~= held.push(all@[i as int]@));
        }
        i = i + 1;
    }
    assert(views(all@).take(i as int) =~= views(all@));
    if kept.len() >= 2 {
        let mut name: String = kept[0].clone();
        name.push('.');
        name.append(trim_end_char(kept[1].as_str(), '_'));
        assert(views(kept@)[0] == kept@[0]@);
        assert(views(kept@)[1] == kept@[1]@);
        assert(name@ =~= kept@[0]@ + seq!['.'] + without_trailing(kept@[1]@, '_'));
        name
    } else {
        dot(flattened.as_str())
    }
}

/// Whether a type has a CDR layout.
pub fn supports(msg_name: &str) -> (r: bool)
    ensures
        r == (type_named(msg_name@) is Some),
{
    MessageType::named(msg_name).is_some()
}

// -------------------------------------------------------------------- reading
/// The fields that a payload holds, read as a message of the given type.
pub open spec fn transcoded(message_type: MessageType, payload: Seq<u8>) -> Option<Seq<Chunk>> {
    match read_parts(
        body_of(payload),
        declares_little_endian(payload),
        0,
        message_type.parts(),
    ) {
        Some((content, _)) => Some(content),
        None => None,
    }
}

/// Reads a CDR payload as a message of the named type. What stands behind the last field is ignored.
pub fn to_lcm(msg_name: &str, payload: &[u8]) -> (r: Result<Message, CdrError>)
    ensures
        match r {
            Ok(message) => {
                &&& payload@.len() >= 4
                &&& type_named(msg_name@) == Some(message.message_type())
                &&& transcoded(message.message_type(), payload@) == Some(message.content())
                &&& stands_in(payload@, message)
                &&& message.unsequenced()
            },
            Err(CdrError::HeaderTooShort) => payload@.len() < 4,
            Err(CdrError::NoTranscoder(name)) => {
                &&& payload@.len() >= 4
                &&& type_named(msg_name@) is None
                &&& name@ == msg_name@
            },
            Err(CdrError::EndedEarly) => {
                &&& payload@.len() >= 4
                &&& type_named(msg_name@) matches Some(message_type) && transcoded(
                    message_type,
                    payload@,
                ) is None
            },
            Err(_) => false,
        },
{
    let mut reader: Reader = Reader::new(payload)?;
    match MessageType::named(msg_name) {
        Some(message_type) => {
            let message: Message = Message::read(message_type, &mut reader)?;
            proof {
                law_messages_stand_in_the_payload(payload@, message);
            }
            Ok(message)
        },
        None => Err(CdrError::NoTranscoder(msg_name.to_owned())),
    }
}

// -------------------------------------------------------------------- writing
/// The payload of a message with these fields.
pub open spec fn encoded(content: Seq<Chunk>) -> Seq<u8> {
    header_le() + put_chunks(Seq::empty(), content)
}

/// A CDR body and the ROS type it actually ended up as.
#[derive(Debug, PartialEq, Eq)]
pub struct Encoded<'a> {
    pub msg_name: &'a str,
    pub data: Vec<u8>,
    /// Set when the payload was written out in a shape a viewer cannot render, because guessing
    /// would be worse. Counted and reported rather than hidden.
    pub defect: Option<String>,
}

/// The container an `Image` is really carrying, if it is not raw pixels.
#[derive(Clone, Copy, Debug, PartialEq, Eq, Structural)]
pub enum Container {
    /// Ordinary pixels, or a shape we have no reason to doubt.
    Raw,
    Jpeg,
    Png,
    /// `encoding` names a codec and the byte count rules out raw pixels, but no magic matches.
    /// Guessing a container here would corrupt the stream, so the message goes out unchanged and the
    /// caller reports it.
    Unrecognised,
}

/// Whether an encoding names a codec rather than a pixel layout.
pub open spec fn names_codec(encoding: Seq<char>) -> bool {
    encoding == "jpeg"@ || encoding == "jpg"@ || encoding == "png"@
}

/// Whether the size of an image is that of its pixels, or says nothing.
pub open spec fn sized_as_pixels(image: Image) -> bool {
    image.height < 0 || image.step < 0 || (image.step != 0 && image.height * image.step
        == image.data@.len())
}

pub open spec fn jpeg_magic() -> Seq<u8> {
    seq![0xFFu8, 0xD8u8, 0xFFu8]
}

pub open spec fn png_magic() -> Seq<u8> {
    seq![0x89u8, 0x50u8, 0x4Eu8, 0x47u8, 0x0Du8, 0x0Au8, 0x1Au8, 0x0Au8]
}

/// What an image carries. The size decides first: a conformant raw frame is exactly `height * step`
/// bytes and a codec stream essentially never is. Magic bytes alone would not do, because a
/// saturated mono8 row can genuinely open `ff d8 ff`.
pub open spec fn container_of(image: Image) -> Container {
    if !names_codec(image.encoding@) || sized_as_pixels(image) {
        Container::Raw
    } else if jpeg_magic().is_prefix_of(image.data@) {
        Container::Jpeg
    } else if png_magic().is_prefix_of(image.data@) {
        Container::Png
    } else {
        Container::Unrecognised
    }
}

fn opens_with(data: &Vec<u8>, magic: &[u8]) -> (r: bool)
    ensures
        r == magic@.is_prefix_of(data@),
{
    if data.len() < magic.len() {
        return false;
    }
    let mut i: usize = 0;
    while i < magic.len()
        invariant
            i <= magic.len() <= data.len(),
            forall|j: int| 0 <= j < i ==> magic@[j] == data@[j],
        decreases magic.len() - i,
    {
        if magic[i] != data[i] {
            assert(data@.subrange(0, magic@.len() as int)[i as int] == data@[i as int]);
            return false;
        }
        i = i + 1;
    }
    assert(magic@ =~= data@.subrange(0, magic@.len() as int));
    true
}

pub fn container_format(image: &Image) -> (r: Container)
    ensures
        r == container_of(*image),
{
    let encoding: &str = image.encoding.as_str();
    if !same(encoding, "jpeg") && !same(encoding, "jpg") && !same(encoding, "png") {
        return Container::Raw;
    }
    if image.height < 0 || image.step < 0 {
        return Container::Raw;
    }
    assert(image.height * image.step <= 0x7fff_ffff * 0x7fff_ffff) by (nonlinear_arith)
        requires
            0 <= image.height <= 0x7fff_ffff,
            0 <= image.step <= 0x7fff_ffff,
    ;
    assert(0 <= image.height * image.step) by (nonlinear_arith)
        requires
            0 <= image.height,
            0 <= image.step,
    ;
    let size: i64 = image.height as i64 * image.step as i64;
    if image.step != 0 && size as u64 == image.data.len() as u64 {
        return Container::Raw;
    }
    let jpeg: [u8; 3] = [0xFF, 0xD8, 0xFF];
    let png: [u8; 8] = [0x89, 0x50, 0x4E, 0x47, 0x0D, 0x0A, 0x1A, 0x0A];
    assert(jpeg@ =~= jpeg_magic());
    assert(png@ =~= png_magic());
    if opens_with(&image.data, &jpeg) {
        Container::Jpeg
    } else if opens_with(&image.data, &png) {
        Container::Png
    } else {
        Container::Unrecognised
    }
}

/// The format of a compressed image that carries such a container.
pub open spec fn format_of(container: Container) -> Option<Seq<char>> {
    match container {
        Container::Jpeg => Some("jpeg"@),
        Container::Png => Some("png"@),
        _ => None,
    }
}

/// What is said of an image that is neither raw pixels nor in a container we recognise.
pub open spec fn defect_text(image: Image) -> Seq<char> {
    "encoding=\""@ + image.encoding@ + "\" height="@ + signed_decimal(image.height as int)
        + " step="@ + signed_decimal(image.step as int) + " len="@ + decimal(image.data@.len())
        + " is neither raw pixels nor a container we recognise; forwarded as-is"@
}

/// The type and the fields that a message is recorded as. An image that is really carrying a codec
/// stream is recorded as a compressed image; every other message as what it is.
pub open spec fn recorded(message: Message) -> (MessageType, Seq<Chunk>) {
    match message {
        Message::Image(image) => match format_of(container_of(image)) {
            Some(format) => (
                MessageType::CompressedImage,
                chunk(
                    Chunk::Run(
                        image.header.fields() + just(Field::Text(format)) + just(
                            Field::Bytes(image.data@),
                        ),
                    ),
                ),
            ),
            None => (MessageType::Image, message.content()),
        },
        _ => (message.message_type(), message.content()),
    }
}

/// What is reported of a message that no viewer can render.
pub open spec fn defect_of(message: Message) -> Option<Seq<char>> {
    match message {
        Message::Image(image) => if container_of(image) is Unrecognised {
            Some(defect_text(image))
        } else {
            None
        },
        _ => None,
    }
}

/// The view of an optional text.
pub open spec fn text_view(text: Option<String>) -> Option<Seq<char>> {
    match text {
        Some(text) => Some(text@),
        None => None,
    }
}

fn describe_defect(image: &Image) -> (r: String)
    ensures
        r@ == defect_text(*image),
{
    let mut text: String = "encoding=\"".to_owned();
    text.append(image.encoding.as_str());
    text.append("\" height=");
    push_signed(&mut text, image.height as i64);
    text.append(" step=");
    push_signed(&mut text, image.step as i64);
    text.append(" len=");
    push_decimal(&mut text, image.data.len() as u64);
    text.append(" is neither raw pixels nor a container we recognise; forwarded as-is");
    text
}

fn encode(message: &Message) -> (data: Vec<u8>)
    requires
        writable(message.content()),
    ensures
        data@ == encoded(message.content()),
{
    let mut writer: Writer = Writer::default();
    message.put(&mut writer);
    writer.finish()
}

/// The compressed image that an image with a codec stream in it is recorded as.
fn compressed(image: Image, format: &str) -> (message: Message)
    requires
        writable(Message::Image(image).content()),
        is_ascii_chars(format@),
        format@.len() < 0xffff_ffff,
    ensures
        message.message_type() == MessageType::CompressedImage,
        message.content() == chunk(
            Chunk::Run(
                image.header.fields() + just(Field::Text(format@)) + just(
                    Field::Bytes(image.data@),
                ),
            ),
        ),
        writable(message.content()),
{
    let ghost fields = image.fields();
    let message: CompressedImage = CompressedImage {
        header: image.header,
        format: format.to_owned(),
        data: image.data,
    };
    proof {
        is_ascii_chars_encode_utf8(format@);
        let all = chunk(Chunk::Run(fields));
        assert(messages::chunk_writable(all[0]));
        let kept = message.fields();
        assert forall|i: int| 0 <= i < kept.len() implies ((
        #[trigger] kept[i]) matches Field::Text(text) ==> layout::low32(encode_utf8(text).len())
            < 0xffff_ffff) by {
            if i < 3 {
                assert(fields[i] == kept[i]);
            }
        }
        assert(run_writable(kept));
    }
    Message::CompressedImage(message)
}

/// What is said when a message cannot be recorded as CDR, or nothing if it can.
pub open spec fn refusal(name: Seq<char>, decoded: Result<Message, String>) -> Option<Seq<char>> {
    match (type_named(name), decoded) {
        (None, _) => Some("no CDR encoder for "@ + name),
        (Some(_), Err(why)) => Some(why@),
        (Some(message_type), Ok(message)) => if message.message_type() == message_type {
            None
        } else {
            Some("decoded as another type"@)
        },
    }
}

/// Turns what came off the wire into the ROS 2 CDR payload for the same type.
///
/// `decoded` is what the wire bytes decoded to, or the decoder's complaint. Fields are written in
/// schema order, which is the order `to_lcm` reads them in.
///
/// The returned `msg_name` is usually the one passed in, but a `sensor_msgs.Image` that is really
/// carrying a codec stream comes back as `sensor_msgs.CompressedImage`: a recorded image whose
/// encoding names a codec is one that no viewer draws.
pub fn to_cdr<'a>(msg_name: &'a str, decoded: Result<Message, String>) -> (r: Result<
    Encoded<'a>,
    CdrError,
>)
    requires
        decoded matches Ok(message) ==> writable(message.content()),
    ensures
        match r {
            Ok(out) => {
                &&& decoded matches Ok(message) && {
                    &&& type_named(msg_name@) == Some(message.message_type())
                    &&& out.msg_name@ == recorded(message).0.name()
                    &&& out.data@ == encoded(recorded(message).1)
                    &&& text_view(out.defect) == defect_of(message)
                }
            },
            Err(CdrError::NoEncoder(name)) => type_named(msg_name@) is None && name@ == msg_name@,
            Err(CdrError::Undecodable(why)) => {
                &&& type_named(msg_name@) is Some
                &&& decoded == Err::<Message, String>(why)
            },
            Err(CdrError::Mismatched) => {
                &&& type_named(msg_name@) is Some
                &&& decoded matches Ok(message) && type_named(msg_name@) != Some(
                    message.message_type(),
                )
            },
            Err(_) => false,
        },
        match r {
            Ok(_) => refusal(msg_name@, decoded) is None,
            Err(error) => refusal(msg_name@, decoded) == Some(error.text()),
        },
{
    let message_type: MessageType = match MessageType::named(msg_name) {
        Some(message_type) => message_type,
        None => {
            return Err(CdrError::NoEncoder(msg_name.to_owned()));
        },
    };
    let message: Message = match decoded {
        Ok(message) => message,
        Err(why) => {
            return Err(CdrError::Undecodable(why));
        },
    };
    if !message.is_a(message_type) {
        return Err(CdrError::Mismatched);
    }
    proof {
        types::law_types_have_one_name_each(message_type, msg_name@);
    }
    match message {
        Message::Image(image) => {
            let container: Container = container_format(&image);
            let format: Option<&str> = match container {
                Container::Jpeg => Some("jpeg"),
                Container::Png => Some("png"),
                _ => None,
            };
            match format {
                Some(format) => {
                    proof {
                        reveal_strlit("jpeg");
                        reveal_strlit("png");
                    }
                    let message: Message = compressed(image, format);
                    Ok(
                        Encoded {
                            msg_name: "sensor_msgs.CompressedImage",
                            data: encode(&message),
                            defect: None,
                        },
                    )
                },
                None => {
                    let defect: Option<String> = match container {
                        Container::Unrecognised => Some(describe_defect(&image)),
                        _ => None,
                    };
                    Ok(Encoded { msg_name, data: encode(&Message::Image(image)), defect })
                },
            }
        },
        other => Ok(Encoded { msg_name, data: encode(&other), defect: None }),
    }
}

// ----------------------------------------------------------------------- laws
/// Fields of a type's own layout, written as a payload, are read back.
proof fn lemma_content_reads_back(message_type: MessageType, content: Seq<Chunk>)
    requires
        chunks_fit(content, message_type.parts()),
    ensures
        transcoded(message_type, encoded(content)) == Some(content),
{
    let body = put_chunks(Seq::empty(), content);
    assert(body_of(encoded(content)) =~= body);
    assert(body =~= body.subrange(0, body.len() as int));
    law_written_messages_read_back(Seq::empty(), content, message_type.parts(), body);
}

/// A message that is written and read back keeps every field.
pub proof fn law_recorded_messages_read_back(message: Message)
    requires
        small(message.content()),
    ensures
        transcoded(message.message_type(), encoded(message.content())) == Some(message.content()),
{
    lemma_message_fits(message);
    lemma_content_reads_back(message.message_type(), message.content());
}

/// Whether a payload is read as a message of a type.
pub open spec fn reads_as(payload: Seq<u8>, message_type: MessageType) -> bool {
    payload.len() >= 4 && transcoded(message_type, payload) is Some
}

/// A payload is read whole or not at all: nothing that is cut short anywhere is ever transcoded.
pub proof fn law_truncated_payloads_are_refused(message: Message, n: int)
    requires
        small(message.content()),
        0 <= n < encoded(message.content()).len(),
    ensures
        reads_as(encoded(message.content()), message.message_type()),
        !reads_as(encoded(message.content()).take(n), message.message_type()),
{
    let parts = message.message_type().parts();
    let whole = encoded(message.content());
    let body = put_chunks(Seq::empty(), message.content());
    law_recorded_messages_read_back(message);
    if n >= 4 {
        let cut = whole.take(n);
        lemma_message_fits(message);
        assert(body =~= body.subrange(0, body.len() as int));
        law_written_messages_read_back(Seq::empty(), message.content(), parts, body);
        assert(body_of(whole) =~= body);
        assert(body_of(cut) =~= body.subrange(0, n - 4));
        assert(declares_little_endian(cut) == declares_little_endian(whole));
        assert(cut[1] == 1);
        law_messages_are_read_from_no_more_than_they_need(body_of(cut), body, true, 0, parts);
    }
}

/// The encoder writes exactly the layout the decoder reads: a written payload comes out of a trip
/// through a message and back byte for byte the same.
pub proof fn law_payloads_survive_the_round_trip(written: Message, read: Message)
    requires
        small(written.content()),
        transcoded(written.message_type(), encoded(written.content())) == Some(read.content()),
    ensures
        encoded(read.content()) == encoded(written.content()),
{
    law_recorded_messages_read_back(written);
}

/// Recording a message keeps what it holds: read back under the type it was recorded as, it has the
/// fields it was recorded with, and a codec stream passes through untouched.
pub proof fn law_recordings_keep_the_message(message: Message)
    requires
        small(message.content()),
    ensures
        ({
            let (message_type, content) = recorded(message);
            transcoded(message_type, encoded(content)) == Some(content)
        }),
        recorded(message).0 != message.message_type() ==> (message matches Message::Image(image)
            && recorded(message).0 == MessageType::CompressedImage && recorded(
            message,
        ).1[0]->Run_0.last() == Field::Bytes(image.data@)),
{
    broadcast use layout::group_runs;

    match message {
        Message::Image(image) => match format_of(container_of(image)) {
            Some(format) => {
                reveal_strlit("jpeg");
                reveal_strlit("png");
                is_ascii_chars_encode_utf8(format);
                let fields = image.fields();
                let kept = image.header.fields() + just(Field::Text(format)) + just(
                    Field::Bytes(image.data@),
                );
                let content = recorded(message).1;
                let whole = message.content()[0];
                assert(layout::chunk_small(whole));
                assert(layout::fits(whole->Run_0[fields.len() - 1]));
                assert forall|i: int| 0 <= i < kept.len() implies layout::fits(
                    #[trigger] kept[i],
                ) by {
                    if i < 3 {
                        assert(layout::fits(whole->Run_0[i]));
                        assert(fields[i] == kept[i]);
                    }
                }
                image.header.lemma_kinds();
                assert(content[0] == Chunk::Run(kept));
                lemma_content_reads_back(MessageType::CompressedImage, content);
            },
            None => law_recorded_messages_read_back(message),
        },
        _ => law_recorded_messages_read_back(message),
    }
}

/// A payload that is written opens with the header of a little-endian one.
pub proof fn law_payloads_are_written_little_endian(content: Seq<Chunk>)
    ensures
        encoded(content).len() >= 4,
        encoded(content).take(4) == seq![0u8, 1u8, 0u8, 0u8],
        declares_little_endian(encoded(content)),
{
    assert(encoded(content).take(4) =~= seq![0u8, 1u8, 0u8, 0u8]);
}

/// An image carries a codec stream only when its encoding names a codec and its size cannot be that of
/// its pixels. Which one it is, the first bytes tell.
pub proof fn law_containers_are_told_by_size_and_first_bytes(image: Image)
    ensures
        ({
            let encoding = image.encoding@;
            let data = image.data@;
            let names = encoding == seq!['j', 'p', 'e', 'g'] || encoding == seq!['j', 'p', 'g']
                || encoding == seq!['p', 'n', 'g'];
            let pixels = image.step > 0 && image.height * image.step == data.len();
            let jpeg = data.len() >= 3 && data[0] == 255 && data[1] == 216 && data[2] == 255;
            let png = data.len() >= 8 && data[0] == 137 && data[1] == 80 && data[2] == 78 && data[3]
                == 71 && data[4] == 13 && data[5] == 10 && data[6] == 26 && data[7] == 10;
            let odd = names && !pixels && image.height >= 0 && image.step >= 0;
            &&& container_of(image) == Container::Jpeg <==> odd && jpeg
            &&& container_of(image) == Container::Png <==> odd && png
            &&& container_of(image) == Container::Unrecognised <==> odd && !jpeg && !png
            &&& container_of(image) == Container::Raw <==> !odd
        }),
{
    reveal_strlit("jpeg");
    reveal_strlit("jpg");
    reveal_strlit("png");
    assert("jpeg"@ =~= seq!['j', 'p', 'e', 'g']);
    assert("jpg"@ =~= seq!['j', 'p', 'g']);
    assert("png"@ =~= seq!['p', 'n', 'g']);
    let data = image.data@;
    if data.len() >= 3 {
        let start = data.subrange(0, 3);
        assert(start[0] == data[0] && start[1] == data[1] && start[2] == data[2]);
        if data[0] == 255 && data[1] == 216 && data[2] == 255 {
            assert(start =~= jpeg_magic());
        } else {
            assert(jpeg_magic()[0] == 255 && jpeg_magic()[1] == 216 && jpeg_magic()[2] == 255);
        }
    }
    if data.len() >= 8 {
        let start = data.subrange(0, 8);
        assert(start[0] == data[0] && start[1] == data[1] && start[2] == data[2] && start[3]
            == data[3]);
        assert(start[4] == data[4] && start[5] == data[5] && start[6] == data[6] && start[7]
            == data[7]);
        let magic = png_magic();
        assert(magic[0] == 137 && magic[1] == 80 && magic[2] == 78 && magic[3] == 71);
        assert(magic[4] == 13 && magic[5] == 10 && magic[6] == 26 && magic[7] == 10);
        if start[0] == 137 && start[1] == 80 && start[2] == 78 && start[3] == 71 && start[4] == 13
            && start[5] == 10 && start[6] == 26 && start[7] == 10 {
            assert(start =~= magic);
        }
    }
}

/// An image that carries a codec stream is recorded as a compressed image with the same header and bytes,
/// in the format of the stream. Everything else is recorded as what it is.
pub proof fn law_codec_streams_are_recorded_as_compressed_images(message: Message, compressed: CompressedImage)
    requires
        message matches Message::Image(image) && compressed.header == image.header
            && compressed.data == image.data,
    ensures
        ({
            let image = message->Image_0;
            let container = container_of(image);
            &&& container == Container::Jpeg && compressed.format@ == seq!['j', 'p', 'e', 'g']
                ==> recorded(message) == (
                MessageType::CompressedImage,
                Message::CompressedImage(compressed).content(),
            )
            &&& container == Container::Png && compressed.format@ == seq!['p', 'n', 'g'] ==> recorded(
                message,
            ) == (MessageType::CompressedImage, Message::CompressedImage(compressed).content())
            &&& container != Container::Jpeg && container != Container::Png ==> recorded(message) == (
                MessageType::Image,
                message.content(),
            )
            &&& defect_of(message) is Some <==> container == Container::Unrecognised
        }),
{
    reveal_strlit("jpeg");
    reveal_strlit("png");
    assert("jpeg"@ =~= seq!['j', 'p', 'e', 'g']);
    assert("png"@ =~= seq!['p', 'n', 'g']);
}

/// Only a message of the named type is recorded under that name.
pub proof fn law_messages_are_recorded_under_their_own_name(name: Seq<char>, message: Message)
    ensures
        refusal(name, Ok(message)) is None <==> name == message.message_type().name(),
        message !is Image ==> recorded(message) == (message.message_type(), message.content())
            && defect_of(message) is None,
{
    types::law_types_have_one_name_each(message.message_type(), name);
}

/// What stands behind the last field is ignored.
pub proof fn law_what_follows_the_last_field_is_ignored(
    message_type: MessageType,
    payload: Seq<u8>,
    more: Seq<u8>,
)
    requires
        payload.len() >= 4,
        transcoded(message_type, payload) is Some,
    ensures
        transcoded(message_type, payload + more) == transcoded(message_type, payload),
{
    let short = body_of(payload);
    let whole = body_of(payload + more);
    assert(whole =~= short + more);
    assert(short =~= whole.subrange(0, short.len() as int));
    law_messages_are_read_from_no_more_than_they_need(
        short,
        whole,
        declares_little_endian(payload),
        0,
        message_type.parts(),
    );
}

impl CdrError {
    /// A complaint names the type that there is nothing for, or passes on what the decoder said.
    pub proof fn law_complaints_name_the_type(self)
        ensures
        self matches CdrError::NoTranscoder(name) ==> found(self.text(), name@),
        self matches CdrError::NoEncoder(name) ==> found(self.text(), name@),
        self matches CdrError::Undecodable(why) ==> found(self.text(), why@),
    {
        if let CdrError::NoTranscoder(name) = self {
            lemma_found_whole(name@);
            let front = "no CDR transcoder for "@;
            let back = Seq::empty();
            lemma_found(front, name@, back, name@);
            assert(self.text() =~= front + name@ + back);
        }
        if let CdrError::NoEncoder(name) = self {
            lemma_found_whole(name@);
            let front = "no CDR encoder for "@;
            let back = Seq::empty();
            lemma_found(front, name@, back, name@);
            assert(self.text() =~= front + name@ + back);
        }
        if let CdrError::Undecodable(why) = self {
            lemma_found_whole(why@);
            let front = Seq::empty();
            let back = Seq::empty();
            lemma_found(front, why@, back, why@);
            assert(self.text() =~= front + why@ + back);
        }
    }
}

/// What is said of an image that no viewer draws quotes its encoding and gives its height, its step and its
/// size.
pub proof fn law_defects_describe_the_image(image: Image)
    ensures
        found(defect_text(image), "encoding=\""@ + image.encoding@ + "\""@),
        found(defect_text(image), " height="@ + signed_decimal(image.height as int)),
        found(defect_text(image), " step="@ + signed_decimal(image.step as int)),
        found(defect_text(image), " len="@ + decimal(image.data@.len())),
{
    reveal_strlit("\" height=");
    reveal_strlit("\"");
    reveal_strlit(" height=");
    let text = defect_text(image);
    let encoding = "encoding=\""@ + image.encoding@ + "\""@;
    let height = " height="@ + signed_decimal(image.height as int);
    let step = " step="@ + signed_decimal(image.step as int);
    let size = " len="@ + decimal(image.data@.len());
    let end = " is neither raw pixels nor a container we recognise; forwarded as-is"@;
    assert("\" height="@ =~= "\""@ + " height="@);
    assert(text =~= encoding + height + step + size + end);
    lemma_found_whole(encoding);
    lemma_found_whole(height);
    lemma_found_whole(step);
    lemma_found_whole(size);
    lemma_found(Seq::empty(), encoding, height + step + size + end, encoding);
    lemma_found(encoding, height, step + size + end, height);
    lemma_found(encoding + height, step, size + end, step);
    lemma_found(encoding + height + step, size, end, size);
    assert(text =~= Seq::<char>::empty() + encoding + (height + step + size + end));
    assert(text =~= encoding + height + (step + size + end));
    assert(text =~= encoding + height + step + (size + end));
}

/// What is written of a message stands in the payload, each member where its definition puts it.
pub proof fn law_written_messages_stand_in_the_payload(message: Message)
    requires
        small(message.content()),
    ensures
        stands_in(encoded(message.content()), message),
{
    law_recorded_messages_read_back(message);
    law_messages_stand_in_the_payload(encoded(message.content()), message);
}

} // verus!
