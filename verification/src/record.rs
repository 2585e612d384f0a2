//! Capturing live LCM or Zenoh traffic into an `.mcap`.
//!
//! This is the write side of the convention that `source` reads: one channel per stream, the python
//! type in `dimos.payload_type` and the stream name in `dimos.stream_name`.
pub mod log;
pub mod loopback;
use crate::cdr::messages::writable;
use crate::cdr::types::{law_types_have_one_name_each, type_named, Message, MessageType};
use crate::cdr::{defect_of, encoded, recorded, refusal, supports, text_view, to_cdr, CdrError};
use crate::order::{lemma_rank_of_member, texts_of, Table};
use crate::outside::{json_string_list, json_strings, lz4_content, lz4_encode};
use crate::pattern::{any_covers, any_matches, picked, selects};
use crate::schema::{
    law_schema_names_name_their_type, schema_name, schema_name_of, schema_text, schema_text_of,
};
use crate::sink::published_name;
use crate::source::{module_type, storage_of, ChannelInfo, Storage, Stream};
use crate::text::{
    found, is_space, joined, law_joined_strings_come_apart_again,
    law_the_sides_of_a_split_make_the_string, lemma_first_index, lemma_found, lemma_found_whole,
    lemma_last_index, pieces, rsplit_once, same, split_all, split_first, split_last, split_once,
    starts_with, strip_prefix, trim, trimmed, views, without_prefix,
};
use vstd::prelude::*;
use vstd::utf8::encode_utf8;

verus! {

/// Free space below which recording is likely to end badly. A warning, not a refusal: how much a
/// capture needs depends entirely on which streams it holds.
pub const LOW_DISK_BYTES: u64 = 6_442_450_944;

/// How the payload bytes of one stream are stored.
#[derive(Debug, Clone, Copy, PartialEq, Eq, Structural)]
pub enum Codec {
    /// ROS 2 CDR beside its `ros2msg` schema. The only encoding general tools read.
    Cdr,
    /// Raw LCM wire bytes, exactly as they arrived.
    Lcm,
    /// LZ4 frame around the wire bytes. Only worth it when the file is not compressed as well: a
    /// compressed payload leaves the chunk compressor nothing to find.
    Lz4Lcm,
}

/// Why a payload could not be stored.
#[derive(Debug, PartialEq, Eq)]
pub enum EncodeError {
    /// It has no CDR form.
    Cdr(CdrError),
    /// The LZ4 encoder failed, with its own words. It has no reason to.
    Lz4(String),
}

impl EncodeError {
    /// What the error reads like.
    pub open spec fn text(&self) -> Seq<char> {
        match self {
            EncodeError::Cdr(error) => error.text(),
            EncodeError::Lz4(_) => "lz4 compression failed"@,
        }
    }

    pub fn message(&self) -> (r: String)
        ensures
            r@ == self.text(),
    {
        match self {
            EncodeError::Cdr(error) => error.message(),
            EncodeError::Lz4(_) => "lz4 compression failed".to_owned(),
        }
    }
}

/// What a payload is stored as: the type it ends up as, and a note when it had to be written in a shape
/// a viewer cannot render; or what is said when it cannot be stored.
pub open spec fn stored_as(
    codec: Codec,
    msg_name: Seq<char>,
    decoded: Result<Message, String>,
) -> Result<(Seq<char>, Option<Seq<char>>), Seq<char>> {
    match codec {
        Codec::Cdr => match (refusal(msg_name, decoded), decoded) {
            (None, Ok(message)) => Ok((recorded(message).0.name(), defect_of(message))),
            (Some(why), _) => Err(why),
            (None, Err(why)) => Err(why@),
        },
        _ => Ok((msg_name, None)),
    }
}

/// Whether these are bytes that a payload can be stored as. Of LZ4 frames any will do that the payload
/// comes out of again.
pub open spec fn stores(
    codec: Codec,
    wire: Seq<u8>,
    decoded: Result<Message, String>,
    data: Seq<u8>,
) -> bool {
    match codec {
        Codec::Cdr => decoded matches Ok(message) && data == encoded(recorded(message).1),
        Codec::Lcm => data == wire,
        Codec::Lz4Lcm => lz4_content(data) == Ok::<Seq<u8>, Seq<char>>(wire),
    }
}

impl Codec {
    /// What a codec is called.
    pub open spec fn name(self) -> Seq<char> {
        match self {
            Codec::Cdr => "cdr"@,
            Codec::Lcm => "lcm"@,
            Codec::Lz4Lcm => "lz4+lcm"@,
        }
    }

    /// The codec that goes by a name.
    pub open spec fn named(name: Seq<char>) -> Option<Codec> {
        if name == "cdr"@ {
            Some(Codec::Cdr)
        } else if name == "lcm"@ {
            Some(Codec::Lcm)
        } else if name == "lz4+lcm"@ {
            Some(Codec::Lz4Lcm)
        } else {
            None
        }
    }

    /// What this codec becomes for a stream of some type.
    pub open spec fn resolved(self, msg_name: Seq<char>) -> Codec {
        if self == Codec::Cdr && type_named(msg_name) is None {
            Codec::Lcm
        } else {
            self
        }
    }

    pub fn id(self) -> (r: &'static str)
        ensures
            r@ == self.name(),
    {
        match self {
            Codec::Cdr => "cdr",
            Codec::Lcm => "lcm",
            Codec::Lz4Lcm => "lz4+lcm",
        }
    }

    pub fn parse(name: &str) -> (r: Option<Codec>)
        ensures
            r == Codec::named(name@),
    {
        if same(name, "cdr") {
            Some(Codec::Cdr)
        } else if same(name, "lcm") {
            Some(Codec::Lcm)
        } else if same(name, "lz4+lcm") {
            Some(Codec::Lz4Lcm)
        } else {
            None
        }
    }

    /// What this codec becomes for a stream carrying `msg_name`.
    ///
    /// CDR only exists for types with a transcoder, so a stream of anything else is stored as raw LCM
    /// rather than dropped.
    pub fn resolve(self, msg_name: &str) -> (r: Codec)
        ensures
            r == self.resolved(msg_name@),
    {
        match self {
            Codec::Cdr => {
                if supports(msg_name) {
                    Codec::Cdr
                } else {
                    Codec::Lcm
                }
            },
            other => other,
        }
    }

    /// Returns the payload, the type it ended up as, which is only ever different from `msg_name` for
    /// an image that carries a codec stream, and a note when the payload had to be written in a shape
    /// a viewer cannot render. `decoded` is what the wire bytes decode to; only CDR looks at it.
    pub fn encode<'a>(
        self,
        msg_name: &'a str,
        wire: Vec<u8>,
        decoded: Result<Message, String>,
    ) -> (r: Result<(&'a str, Vec<u8>, Option<String>), EncodeError>)
        requires
            self == Codec::Cdr ==> (decoded matches Ok(message) ==> writable(message.content())),
        ensures
            match stored_as(self, msg_name@, decoded) {
                Ok((name, defect)) => {
                    &&& r matches Ok((n, data, note)) && n@ == name && text_view(note) == defect
                        && stores(self, wire@, decoded, data@)
                },
                Err(why) => r matches Err(error) && error.text() == why,
            },
            r matches Err(error) ==> error is Cdr,
    {
        match self {
            Codec::Cdr => match to_cdr(msg_name, decoded) {
                Ok(out) => Ok((out.msg_name, out.data, out.defect)),
                Err(error) => Err(EncodeError::Cdr(error)),
            },
            Codec::Lcm => Ok((msg_name, wire, None)),
            Codec::Lz4Lcm => match lz4_encode(wire.as_slice()) {
                Ok(frame) => Ok((msg_name, frame, None)),
                Err(why) => Err(EncodeError::Lz4(why)),
            },
        }
    }
}

/// How each chunk of the file is compressed, on top of the per-stream codec.
#[derive(Debug, Clone, Copy, PartialEq, Eq, Structural)]
pub enum Compression {
    Zstd,
    Lz4,
    Uncompressed,
}

// ------------------------------------------------------------------ selection
/// Why the names of streams could not be told.
#[derive(Debug, PartialEq, Eq)]
pub struct NamesError {
    /// What was given, without the space around it.
    pub spec_text: String,
    /// The parser's own words.
    pub why: String,
}

impl NamesError {
    /// What the error reads like.
    pub open spec fn text(&self) -> Seq<char> {
        self.spec_text@ + " is not a JSON array of stream names"@
    }

    pub fn message(&self) -> (r: String)
        ensures
            r@ == self.text(),
    {
        let mut text: String = self.spec_text.clone();
        text.append(" is not a JSON array of stream names");
        text
    }
}

/// The names between commas, without the space around them. Empty ones do not count.
pub open spec fn comma_names(s: Seq<char>) -> Seq<Seq<char>> {
    pieces(s, ',').map_values(|piece: Seq<char>| trimmed(piece)).filter(
        |name: Seq<char>| name.len() > 0,
    )
}

/// The names that one argument gives: a JSON array, or names between commas.
pub open spec fn names_in(argument: Seq<char>) -> Result<Seq<Seq<char>>, Seq<char>> {
    let text = trimmed(argument);
    if "["@.is_prefix_of(text) {
        json_strings(text)
    } else {
        Ok(comma_names(text))
    }
}

/// The names that all arguments give, in their order, or else the first argument that gives none and
/// what is said of it.
pub open spec fn all_names(arguments: Seq<Seq<char>>) -> Result<
    Seq<Seq<char>>,
    (Seq<char>, Seq<char>),
>
    decreases arguments.len(),
{
    if arguments.len() == 0 {
        Ok(Seq::empty())
    } else {
        match all_names(arguments.drop_last()) {
            Ok(names) => match names_in(arguments.last()) {
                Ok(more) => Ok(names + more),
                Err(why) => Err((trimmed(arguments.last()), why)),
            },
            Err(error) => Err(error),
        }
    }
}

proof fn lemma_first_error_stays(arguments: Seq<Seq<char>>, n: int)
    requires
        0 <= n <= arguments.len(),
        all_names(arguments.take(n)) is Err,
    ensures
        all_names(arguments) == all_names(arguments.take(n)),
    decreases arguments.len() - n,
{
    if n < arguments.len() {
        assert(arguments.take(n + 1).drop_last() =~= arguments.take(n));
        lemma_first_error_stays(arguments, n + 1);
    } else {
        assert(arguments.take(n) =~= arguments);
    }
}

/// Adds the names between commas to a list.
fn push_comma_names(names: &mut Vec<String>, s: &str)
    ensures
        views(final(names)@) == views(old(names)@) + comma_names(s@),
{
    let parts: Vec<String> = split_all(s, ',');
    let ghost all = views(parts@).map_values(|piece: Seq<char>| trimmed(piece));
    let ghost keep = |name: Seq<char>| name.len() > 0;
    let ghost start = views(names@);
    let mut i: usize = 0;
    proof {
        reveal(Seq::filter);
    }
    assert(all.take(0).filter(keep) =~= Seq::empty());
    assert(views(names@) =~= start + all.take(0).filter(keep));
    while i < parts.len()
        invariant
            i <= parts@.len(),
            all == views(parts@).map_values(|piece: Seq<char>| trimmed(piece)),
            keep == |name: Seq<char>| name.len() > 0,
            views(names@) == start + all.take(i as int).filter(keep),
        decreases parts@.len() - i,
    {
        let name: &str = trim(parts[i].as_str());
        let ghost so_far = all.take(i as int);
        let ghost held = views(names@);
        assert(views(parts@)[i as int] == parts@[i as int]@);
        assert(all[i as int] == name@);
        assert(all.take(i + 1) =~= so_far.push(name@));
        assert(so_far.push(name@).drop_last() =~= so_far);
        reveal(Seq::filter);
        if name.unicode_len() > 0 {
            names.push(name.to_owned());
            assert(views(names@) =~= held.push(name@));
            assert(views(names@) =~= start + all.take(i + 1).filter(keep));
        }
        i = i + 1;
    }
    assert(all.take(i as int) =~= all);
}

fn push_all(names: &mut Vec<String>, more: Vec<String>)
    ensures
        views(final(names)@) == views(old(names)@) + views(more@),
{
    let mut i: usize = 0;
    let ghost start = views(names@);
    assert(views(names@) =~= start + views(more@).take(0));
    while i < more.len()
        invariant
            i <= more@.len(),
            views(names@) == start + views(more@).take(i as int),
        decreases more@.len() - i,
    {
        let ghost held = views(names@);
        names.push(more[i].clone());
        assert(views(names@) =~= held.push(views(more@)[i as int]));
        assert(views(names@) =~= start + views(more@).take(i + 1));
        i = i + 1;
    }
    assert(views(more@).take(i as int) =~= views(more@));
}

/// Accepts a JSON array, `["color_image"]`, and the comma-separated and repeated-flag spellings people
/// reach for anyway.
pub fn parse_names(arguments: &[String]) -> (r: Result<Vec<String>, NamesError>)
    ensures
        match all_names(views(arguments@)) {
            Ok(names) => r matches Ok(list) && views(list@) == names,
            Err((argument, complaint)) => r matches Err(error) && error.spec_text@ == argument
                && error.why@ == complaint,
        },
{
    let ghost all = views(arguments@);
    let mut names: Vec<String> = Vec::new();
    let mut i: usize = 0;
    assert(all.take(0) =~= Seq::empty());
    assert(views(names@) =~= Seq::empty());
    while i < arguments.len()
        invariant
            i <= arguments@.len(),
            all == views(arguments@),
            all_names(all.take(i as int)) == Ok::<Seq<Seq<char>>, (Seq<char>, Seq<char>)>(
                views(names@),
            ),
        decreases arguments@.len() - i,
    {
        let text: &str = trim(arguments[i].as_str());
        assert(all[i as int] == arguments@[i as int]@);
        assert(all.take(i + 1).drop_last() =~= all.take(i as int));
        assert(all.take(i + 1).last() == all[i as int]);
        if starts_with(text, "[") {
            match json_string_list(text) {
                Ok(parsed) => push_all(&mut names, parsed),
                Err(why) => {
                    proof {
                        lemma_first_error_stays(all, i + 1);
                    }
                    return Err(NamesError { spec_text: text.to_owned(), why });
                },
            }
        } else {
            push_comma_names(&mut names, text);
        }
        i = i + 1;
    }
    assert(all.take(i as int) =~= all);
    Ok(names)
}

/// Which stream names are recorded.
///
/// There is an allow list and a deny list; a name has to pass both. An empty allow list means every
/// stream, so a deny list on its own reads as "everything except these".
#[derive(Debug, PartialEq, Eq)]
pub struct Selection {
    pub include_names: Vec<String>,
    pub exclude_names: Vec<String>,
}

impl Selection {
    /// Whether a name passes both lists.
    pub open spec fn records(self, name: Seq<char>) -> bool {
        picked(self.include_names@, name) && !any_covers(self.exclude_names@, name)
    }

    pub fn new(allow: &[String], deny: &[String]) -> (r: Result<Self, NamesError>)
        ensures
            match (all_names(views(allow@)), all_names(views(deny@))) {
                (Ok(allowed), Ok(denied)) => {
                    &&& r matches Ok(selection) && views(selection.include_names@) == allowed
                        && views(selection.exclude_names@) == denied
                },
                (Err((argument, complaint)), _) => r matches Err(error) && error.spec_text@
                    == argument && error.why@ == complaint,
                (Ok(_), Err((argument, complaint))) => r matches Err(error) && error.spec_text@
                    == argument && error.why@ == complaint,
            },
    {
        let include_names: Vec<String> = match parse_names(allow) {
            Ok(names) => names,
            Err(error) => {
                return Err(error);
            },
        };
        match parse_names(deny) {
            Ok(exclude_names) => Ok(Selection { include_names, exclude_names }),
            Err(error) => Err(error),
        }
    }

    pub fn wants(&self, name: &str) -> (r: bool)
        ensures
            r == self.records(name@),
    {
        selects(self.include_names.as_slice(), name) && !any_matches(
            self.exclude_names.as_slice(),
            name,
        )
    }
}

/// The deny list wins, and without lists everything is recorded.
pub proof fn law_the_deny_list_narrows_the_allow_list(selection: Selection, name: Seq<char>)
    ensures
        any_covers(selection.exclude_names@, name) ==> !selection.records(name),
        selection.records(name) ==> picked(selection.include_names@, name),
        selection.include_names@.len() == 0 && selection.exclude_names@.len() == 0
            ==> selection.records(name),
{
}

// ------------------------------------------------------------------- channels
/// What follows a prefix, or everything where it is missing.
pub open spec fn past(s: Seq<char>, prefix: Seq<char>) -> Seq<char> {
    match without_prefix(s, prefix) {
        Some(rest) => rest,
        None => s,
    }
}

/// The stream and the type that a channel names.
pub open spec fn channel_parts(channel: Seq<char>, prefix: Seq<char>, separator: char) -> (
    Seq<char>,
    Seq<char>,
) {
    let rest = past(past(channel, prefix), "/"@);
    match split_last(rest, separator) {
        Some(parts) => parts,
        None => (rest, Seq::empty()),
    }
}

/// `/color_image#sensor_msgs.Image` -> `("color_image", "sensor_msgs.Image")`.
///
/// The leading `/` is stripped even when it is not the configured prefix: a stream name never starts
/// with one, and carrying it into the file would put it back into every channel and key expression on
/// replay.
pub fn split_channel<'a>(channel: &'a str, prefix: &str, separator: char) -> (r: (&'a str, &'a str))
    ensures
        (r.0@, r.1@) == channel_parts(channel@, prefix@, separator),
{
    let rest: &'a str = match strip_prefix(channel, prefix) {
        Some(rest) => rest,
        None => channel,
    };
    let rest: &'a str = match strip_prefix(rest, "/") {
        Some(rest) => rest,
        None => rest,
    };
    match rsplit_once(rest, separator) {
        Some((stream, msg_name)) => (stream, msg_name),
        None => {
            proof {
                reveal_strlit("");
                assert(""@ =~= Seq::empty());
            }
            (rest, "")
        },
    }
}

proof fn lemma_split_last_behind(s: Seq<char>, separator: char, tail: Seq<char>)
    requires
        !tail.contains(separator),
    ensures
        split_last(s.push(separator) + tail, separator) == Some((s, tail)),
{
    let whole = s.push(separator) + tail;
    let i = s.len() as int;
    assert(whole[i] == separator);
    assert forall|j: int| i < j < whole.len() implies whole[j] != separator by {
        assert(whole[j] == tail[j - i - 1]);
        assert(tail.contains(tail[j - i - 1]));
    }
    lemma_last_index(whole, separator, i);
    assert(whole.take(i) =~= s);
    assert(whole.skip(i + 1) =~= tail);
}

/// A published name splits back into the stream and its type, under the prefix and the separator that
/// it was published with. A type never holds the separator, a stream name never leads with a slash,
/// and a stream without a type has to do without the separator.
pub proof fn law_published_names_split_back(stream: Stream, prefix: Seq<char>, separator: char)
    requires
        !stream.msg_name@.contains(separator),
        !"/"@.is_prefix_of(published_name(stream, Seq::empty(), separator)),
        stream.msg_name@.len() == 0 ==> !stream.published@.contains(separator),
    ensures
        channel_parts(published_name(stream, prefix, separator), prefix, separator) == (
            stream.published@,
            stream.msg_name@,
        ),
{
    let channel = published_name(stream, prefix, separator);
    let bare = published_name(stream, Seq::empty(), separator);
    assert(Seq::<char>::empty() + stream.published@ =~= stream.published@);
    assert(channel =~= prefix + bare);
    assert(prefix =~= channel.subrange(0, prefix.len() as int));
    assert(channel.skip(prefix.len() as int) =~= bare);
    if stream.msg_name@.len() == 0 {
        assert(stream.msg_name@ =~= Seq::empty());
    } else {
        lemma_split_last_behind(stream.published@, separator, stream.msg_name@);
    }
}

/// The last segment of a type name.
pub open spec fn class_of(msg_name: Seq<char>) -> Seq<char> {
    match split_last(msg_name, '.') {
        Some((_, class)) => class,
        None => msg_name,
    }
}

/// The python module path of a type, if it has a class.
pub open spec fn module_of(msg_name: Seq<char>) -> Option<Seq<char>> {
    if class_of(msg_name).len() > 0 {
        Some("dimos.msgs."@ + msg_name.push('.') + class_of(msg_name))
    } else {
        None
    }
}

/// `sensor_msgs.Image` -> `dimos.msgs.sensor_msgs.Image.Image`, the inverse of
/// `source::msg_name_from_payload_module`.
pub fn payload_module(msg_name: &str) -> (r: Option<String>)
    ensures
        text_view(r) == module_of(msg_name@),
{
    let class: &str = match rsplit_once(msg_name, '.') {
        Some((_, class)) => class,
        None => msg_name,
    };
    if class.unicode_len() == 0 {
        return None;
    }
    let mut module: String = "dimos.msgs.".to_owned();
    module.append(msg_name);
    module.push('.');
    module.append(class);
    assert(module@ =~= "dimos.msgs."@ + msg_name@.push('.') + class@);
    Some(module)
}

/// The python module path of a type names that type.
pub proof fn law_payload_modules_name_their_type(msg_name: Seq<char>)
    requires
        module_of(msg_name) is Some,
    ensures
        module_type(module_of(msg_name)->0) == msg_name,
{
    let class = class_of(msg_name);
    let module = module_of(msg_name)->0;
    let lead = "dimos.msgs."@;
    let path = msg_name.push('.') + class;
    assert(module =~= lead + path);
    assert(lead =~= module.subrange(0, lead.len() as int));
    assert(module.skip(lead.len() as int) =~= path);
    lemma_class(msg_name);
    lemma_split_last_behind(msg_name, '.', class);
}

proof fn lemma_class(msg_name: Seq<char>)
    ensures
        !class_of(msg_name).contains('.'),
        class_of(msg_name).is_suffix_of(msg_name),
{
    let i = crate::text::last_index(msg_name, '.');
    crate::text::lemma_last_index_bounds(msg_name, '.');
    if i >= 0 {
        let class = msg_name.skip(i + 1);
        assert(class =~= msg_name.subrange(msg_name.len() - class.len(), msg_name.len() as int));
        assert forall|j: int| 0 <= j < class.len() implies class[j] != '.' by {
            assert(class[j] == msg_name[i + 1 + j]);
        }
    } else {
        assert(msg_name =~= msg_name.subrange(0, msg_name.len() as int));
    }
}

/// What a channel of the file says about its stream.
pub open spec fn metadata_of(stream: Seq<char>, msg_name: Seq<char>) -> Map<Seq<char>, Seq<char>> {
    let named = Map::empty().insert("dimos.stream_name"@, stream);
    match module_of(msg_name) {
        Some(module) => named.insert("dimos.payload_type"@, module),
        None => named,
    }
}

/// The metadata that reading an mcap goes by: the python module path and the bare stream name.
pub fn channel_metadata(stream: &str, msg_name: &str) -> (r: Table<String>)
    ensures
        r.wf(),
        texts_of(r) == metadata_of(stream@, msg_name@),
{
    let mut metadata: Table<String> = Table::new();
    let name: String = stream.to_owned();
    let ghost name_text = name@;
    let first: usize = metadata.ensure("dimos.stream_name".to_owned(), name);
    assert(texts_of(metadata) =~= Map::empty().insert("dimos.stream_name"@, name_text));
    match payload_module(msg_name) {
        Some(payload_type) => {
            let ghost type_text = payload_type@;
            let second: usize = metadata.ensure("dimos.payload_type".to_owned(), payload_type);
            proof {
                reveal_strlit("dimos.stream_name");
                reveal_strlit("dimos.payload_type");
                assert("dimos.stream_name"@.len() == 17);
                assert("dimos.payload_type"@.len() == 18);
            }
            assert(texts_of(metadata) =~= metadata_of(stream@, msg_name@));
        },
        None => {},
    }
    metadata
}

/// What goes into the file is what reading it gives back: the stream's name, its type, and that its
/// messages can be replayed. A type whose last segment is empty has no python module to be told by.
pub proof fn law_recorded_channels_read_back(
    channel: ChannelInfo,
    stream: Seq<char>,
    msg_name: Seq<char>,
)
    requires
        texts_of(channel.metadata) == metadata_of(stream, msg_name),
    ensures
        channel.stream_name() == stream,
        channel.message_encoding@ == Codec::Lcm.name() && (module_of(msg_name) is Some
            || msg_name.len() == 0) ==> channel.content() == (msg_name, Storage::Wire),
        channel.message_encoding@ == Codec::Cdr.name() ==> (type_named(msg_name) matches Some(
            message_type,
        ) ==> (text_view(channel.schema_name) == Some(schema_name_of(message_type))
            ==> channel.content() == (msg_name, Storage::Cdr))),
{
    reveal_strlit("dimos.stream_name");
    reveal_strlit("dimos.payload_type");
    assert("dimos.stream_name"@.len() == 17);
    assert("dimos.payload_type"@.len() == 18);
    reveal_strlit("lcm");
    reveal_strlit("cdr");
    assert("lcm"@[0] != "cdr"@[0]);
    let texts = texts_of(channel.metadata);
    assert(texts.contains_key("dimos.stream_name"@));
    assert(texts["dimos.stream_name"@] == stream);
    assert(texts.contains_key("dimos.payload_type"@) <==> module_of(msg_name) is Some);
    if let Some(module) = module_of(msg_name) {
        assert(texts["dimos.payload_type"@] == module);
        law_payload_modules_name_their_type(msg_name);
    } else if msg_name.len() == 0 {
        let none = Seq::<char>::empty();
        reveal_strlit("dimos.msgs.");
        assert("dimos.msgs."@.len() == 11);
        assert(msg_name =~= none);
        crate::text::lemma_last_index_bounds(none, '.');
        assert(module_type(none) =~= none);
    }
    if let Some(message_type) = type_named(msg_name) {
        law_schema_names_name_their_type(message_type);
        law_types_have_one_name_each(message_type, msg_name);
    }
}

/// The definition that a channel is decoded with.
#[derive(Debug, PartialEq, Eq)]
pub struct Schema {
    pub name: String,
    pub encoding: String,
    pub data: Vec<u8>,
}

/// The ROS message definition a CDR channel is decoded with.
///
/// A CDR channel without one is worse than an LCM channel: the bytes are in a format general tools
/// understand but nothing says what the fields are. LCM channels carry no schema because there is no
/// schema language for them; the metadata is what names the type there.
pub fn schema_for(codec: Codec, msg_name: &str) -> (r: Option<Schema>)
    ensures
        match (codec, type_named(msg_name@)) {
            (Codec::Cdr, Some(message_type)) => {
                &&& r matches Some(schema) && schema.name@ == schema_name_of(message_type)
                    && schema.encoding@ == "ros2msg"@ && schema.data@ == encode_utf8(
                    schema_text_of(message_type),
                )
            },
            _ => r is None,
        },
{
    match codec {
        Codec::Cdr => match (schema_name(msg_name), schema_text(msg_name)) {
            (Some(name), Some(text)) => {
                let mut data: Vec<u8> = Vec::new();
                data.extend_from_slice(text.as_bytes());
                assert(data@ =~= encode_utf8(text@));
                Some(Schema { name: name.to_owned(), encoding: "ros2msg".to_owned(), data })
            },
            _ => None,
        },
        _ => None,
    }
}

// --------------------------------------------------------------------- codecs
/// Why a codec could not be told.
#[derive(Debug, PartialEq, Eq)]
pub enum OverrideError {
    /// The argument is not `NAME:CODEC`.
    NoColon(String),
    /// The codec of the argument is none.
    UnknownCodec { argument: String, codec: String },
}

impl OverrideError {
    /// What the error reads like.
    pub open spec fn text(&self) -> Seq<char> {
        match self {
            OverrideError::NoColon(argument) =>
                "--record-codec wants NAME:CODEC, for example lidar:lz4+lcm, not "@ + argument@,
            OverrideError::UnknownCodec { argument, codec } => "--record-codec "@ + argument@
                + ": "@ + codec@ + " is not one of cdr, lcm, lz4+lcm"@,
        }
    }

    pub fn message(&self) -> (r: String)
        ensures
            r@ == self.text(),
    {
        match self {
            OverrideError::NoColon(argument) => {
                let mut text: String =
                    "--record-codec wants NAME:CODEC, for example lidar:lz4+lcm, not ".to_owned();
                text.append(argument.as_str());
                text
            },
            OverrideError::UnknownCodec { argument, codec } => {
                let mut text: String = "--record-codec ".to_owned();
                text.append(argument.as_str());
                text.append(": ");
                text.append(codec.as_str());
                text.append(" is not one of cdr, lcm, lz4+lcm");
                text
            },
        }
    }
}

/// The stream and the codec that an argument names, cut at its first colon.
pub open spec fn override_of(argument: Seq<char>) -> Option<(Seq<char>, Codec)> {
    match split_first(argument, ':') {
        Some((name, codec)) => match Codec::named(codec) {
            Some(codec) => Some((name, codec)),
            None => None,
        },
        None => None,
    }
}

/// The codec of each stream that an argument names; the last one counts.
pub open spec fn overrides_of(arguments: Seq<String>) -> Map<Seq<char>, Codec>
    decreases arguments.len(),
{
    if arguments.len() == 0 {
        Map::empty()
    } else {
        let earlier = overrides_of(arguments.drop_last());
        match override_of(arguments.last()@) {
            Some((name, codec)) => earlier.insert(name, codec),
            None => earlier,
        }
    }
}

/// Parses `NAME:CODEC` arguments.
pub fn codec_overrides(arguments: &[String]) -> (r: Result<Table<Codec>, OverrideError>)
    ensures
        match r {
            Ok(codecs) => {
                &&& codecs.wf()
                &&& forall|i: int|
                    0 <= i < arguments@.len() ==> override_of((#[trigger] arguments@[i])@) is Some
                &&& codecs@ == overrides_of(arguments@)
            },
            Err(error) => exists|i: int|
                {
                    &&& 0 <= i < arguments@.len()
                    &&& override_of((#[trigger] arguments@[i])@) is None
                    &&& forall|j: int|
                        0 <= j < i ==> override_of((#[trigger] arguments@[j])@) is Some
                    &&& match split_first(arguments@[i]@, ':') {
                        Some((_, unknown)) => error matches OverrideError::UnknownCodec {
                            argument,
                            codec,
                        } && argument@ == arguments@[i]@ && codec@ == unknown,
                        None => error matches OverrideError::NoColon(argument) && argument@
                            == arguments@[i]@,
                    }
                },
        },
{
    let mut codecs: Table<Codec> = Table::new();
    let mut i: usize = 0;
    assert(arguments@.take(0) =~= Seq::empty());
    while i < arguments.len()
        invariant
            i <= arguments@.len(),
            codecs.wf(),
            forall|j: int| 0 <= j < i ==> override_of((#[trigger] arguments@[j])@) is Some,
            codecs@ == overrides_of(arguments@.take(i as int)),
        decreases arguments@.len() - i,
    {
        assert(arguments@.take(i + 1).drop_last() =~= arguments@.take(i as int));
        assert(arguments@.take(i + 1).last() == arguments@[i as int]);
        match split_once(arguments[i].as_str(), ':') {
            Some((name, codec_text)) => match Codec::parse(codec_text) {
                Some(codec) => {
                    let ghost before = codecs@;
                    let at: usize = codecs.ensure(name.to_owned(), codec);
                    let slot: &mut Codec = codecs.value_mut(at);
                    *slot = codec;
                    assert(codecs@ =~= before.insert(name@, codec));
                },
                None => {
                    let error: OverrideError = OverrideError::UnknownCodec {
                        argument: arguments[i].clone(),
                        codec: codec_text.to_owned(),
                    };
                    assert(override_of(arguments@[i as int]@) is None);
                    return Err(error);
                },
            },
            None => {
                let error: OverrideError = OverrideError::NoColon(arguments[i].clone());
                assert(override_of(arguments@[i as int]@) is None);
                return Err(error);
            },
        }
        i = i + 1;
    }
    assert(arguments@.take(i as int) =~= arguments@);
    Ok(codecs)
}

/// Whether any stream is to be stored as CDR.
pub open spec fn stores_cdr(codecs: Table<Codec>, default_codec: Codec) -> bool {
    default_codec == Codec::Cdr || codecs.vals@.contains(Codec::Cdr)
}

/// The profile names what a reader should expect to find. Channels are typed one at a time, so a
/// capture holding one untranscodable stream is still a ros2 file everywhere it counts.
pub fn profile(codecs: &Table<Codec>, default_codec: Codec) -> (r: &'static str)
    ensures
        r@ == (if stores_cdr(*codecs, default_codec) {
            "ros2"@
        } else {
            "dimos"@
        }),
{
    if default_codec == Codec::Cdr {
        return "ros2";
    }
    let mut i: usize = 0;
    while i < codecs.vals.len()
        invariant
            i <= codecs.vals@.len(),
            forall|j: int| 0 <= j < i ==> codecs.vals@[j] != Codec::Cdr,
        decreases codecs.vals@.len() - i,
    {
        if codecs.vals[i] == Codec::Cdr {
            assert(codecs.vals@.contains(codecs.vals@[i as int]));
            return "ros2";
        }
        i = i + 1;
    }
    "dimos"
}

/// Free space on a filesystem of so many free fragments, or `None` if it cannot be told.
pub fn free_bytes(fragments: u64, fragment_size: u64) -> (r: Option<u64>)
    ensures
        match r {
            Some(free) => free == fragments * fragment_size,
            None => fragments * fragment_size > u64::MAX,
        },
{
    fragments.checked_mul(fragment_size)
}

/// Whether a recording is worth a warning before it starts. Where the space cannot be measured there
/// is nothing to warn about.
pub fn low_on_disk(free: Option<u64>) -> (r: bool)
    ensures
        r == (free matches Some(bytes) && bytes < LOW_DISK_BYTES),
        r <==> (free matches Some(bytes) && bytes < 6 * 1024 * 1024 * 1024),
{
    match free {
        Some(bytes) => bytes < LOW_DISK_BYTES,
        None => false,
    }
}

// ----------------------------------------------------------------------- laws
/// Every codec is found again by its name and by no other. What reading calls stored as it is is the
/// plain codec, what it calls compressed is the one named `lz4+` in front of that.
pub proof fn law_codecs_have_one_name_each(codec: Codec, name: Seq<char>)
    ensures
        Codec::named(codec.name()) == Some(codec),
        Codec::named(name) == Some(codec) ==> name == codec.name(),
        storage_of(Codec::Lcm.name()) == Storage::Wire,
        storage_of(Codec::Lz4Lcm.name()) == Storage::Lz4,
        Codec::Lz4Lcm.name() == seq!['l', 'z', '4', '+'] + Codec::Lcm.name(),
        Codec::Lcm.name() == seq!['l', 'c', 'm'],
        Codec::Cdr.name() == seq!['c', 'd', 'r'],
{
    reveal_strlit("cdr");
    reveal_strlit("lcm");
    reveal_strlit("lz4+lcm");
    assert("cdr"@ =~= seq!['c', 'd', 'r']);
    assert("lcm"@ =~= seq!['l', 'c', 'm']);
    assert("lz4+lcm"@ =~= seq!['l', 'z', '4', '+'] + "lcm"@);
    assert("cdr"@[0] == 'c' && "lcm"@[0] == 'l' && "lz4+lcm"@.len() == 7);
    reveal_strlit("jpeg");
    assert("jpeg"@.len() == 4);
}

/// CDR gives way to the wire bytes for a type that has no CDR form. Every other choice stands.
pub proof fn law_only_cdr_without_a_form_gives_way(codec: Codec, msg_name: Seq<char>)
    ensures
        codec.resolved(msg_name) == Codec::Cdr <==> codec == Codec::Cdr && exists|t: MessageType|
            #[trigger] t.name() == msg_name,
        codec.resolved(msg_name) != codec ==> codec == Codec::Cdr && codec.resolved(msg_name)
            == Codec::Lcm,
        codec.resolved(msg_name).resolved(msg_name) == codec.resolved(msg_name),
{
    if let Some(t) = type_named(msg_name) {
        law_types_have_one_name_each(t, msg_name);
        assert(t.name() == msg_name);
    }
    if exists|t: MessageType| #[trigger] t.name() == msg_name {
        let t = choose|t: MessageType| #[trigger] t.name() == msg_name;
        law_types_have_one_name_each(t, msg_name);
    }
}

/// What a payload is stored as is read back as the payload, by the codec under its name.
pub proof fn law_stored_payloads_read_back(
    codec: Codec,
    wire: Seq<u8>,
    decoded: Result<Message, String>,
    data: Seq<u8>,
)
    requires
        stores(codec, wire, decoded, data),
    ensures
        storage_of(codec.name()) == Storage::Wire ==> data == wire,
        storage_of(codec.name()) == Storage::Lz4 ==> lz4_content(data) == Ok::<Seq<u8>, Seq<char>>(wire),
        codec != Codec::Cdr ==> storage_of(codec.name()) != Storage::Unsupported,
{
    law_codecs_have_one_name_each(codec, codec.name());
    reveal_strlit("cdr");
    reveal_strlit("lcm");
    reveal_strlit("jpeg");
    reveal_strlit("lz4+lcm");
    reveal_strlit("lz4+jpeg");
    assert("cdr"@.len() == 3 && "jpeg"@.len() == 4 && "lz4+lcm"@.len() == 7 && "lz4+jpeg"@.len() == 8);
    assert("cdr"@[0] == 'c' && "lcm"@[0] == 'l');
}

/// A name that can be given between commas: it is not empty, holds no comma, and has no space around it.
pub open spec fn nameable(name: Seq<char>) -> bool {
    &&& name.len() > 0
    &&& !name.contains(',')
    &&& !is_space(name[0])
    &&& !is_space(name.last())
}

/// Names between commas are the names that were given.
pub proof fn law_names_between_commas_come_apart(list: Seq<Seq<char>>)
    requires
        list.len() > 0,
        forall|i: int| 0 <= i < list.len() ==> nameable(#[trigger] list[i]),
    ensures
        comma_names(joined(list, seq![','])) == list,
{
    law_joined_strings_come_apart_again(list, ',');
    let bare = list.map_values(|piece: Seq<char>| trimmed(piece));
    assert forall|i: int| 0 <= i < list.len() implies bare[i] == list[i] by {
        assert(nameable(list[i]));
    }
    assert(bare =~= list);
    lemma_filter_keeps_all(list, |name: Seq<char>| name.len() > 0);
}

proof fn lemma_filter_keeps_all(list: Seq<Seq<char>>, keep: spec_fn(Seq<char>) -> bool)
    requires
        forall|i: int| 0 <= i < list.len() ==> keep(#[trigger] list[i]),
    ensures
        list.filter(keep) == list,
    decreases list.len(),
{
    reveal(Seq::filter);
    if list.len() > 0 {
        let rest = list.drop_last();
        assert forall|i: int| 0 <= i < rest.len() implies keep(#[trigger] rest[i]) by {
            assert(rest[i] == list[i]);
        }
        lemma_filter_keeps_all(rest, keep);
        assert(keep(list[list.len() - 1]));
        assert(list =~= rest.push(list.last()));
    } else {
        assert(list.filter(keep) =~= list);
    }
}

/// An argument gives a codec to a stream when it is the stream's name, a colon and the codec's name.
pub proof fn law_an_override_is_a_name_a_colon_and_a_codec(
    argument: Seq<char>,
    name: Seq<char>,
    codec: Codec,
)
    requires
        !name.contains(':'),
    ensures
        override_of(argument) == Some((name, codec)) <==> argument == name + seq![':'] + codec.name(),
{
    law_the_sides_of_a_split_make_the_string(argument, ':');
    law_codecs_have_one_name_each(codec, codec.name());
    if argument == name + seq![':'] + codec.name() {
        let i = name.len() as int;
        assert(argument[i] == ':');
        assert forall|j: int| 0 <= j < i implies argument[j] != ':' by {
            assert(argument[j] == name[j]);
        }
        lemma_first_index(argument, ':', i);
        assert(argument.take(i) =~= name);
        assert(argument.skip(i + 1) =~= codec.name());
    }
    if let Some((_, text)) = split_first(argument, ':') {
        law_codecs_have_one_name_each(codec, text);
    }
}

/// Of several arguments for one stream the last one counts.
pub proof fn law_the_last_override_counts(
    arguments: Seq<String>,
    i: int,
    name: Seq<char>,
    codec: Codec,
)
    requires
        0 <= i < arguments.len(),
        override_of(arguments[i]@) == Some((name, codec)),
        forall|j: int|
            i < j < arguments.len() ==> (override_of((#[trigger] arguments[j])@) matches Some(
                (other, _),
            ) ==> other != name),
    ensures
        overrides_of(arguments).contains_key(name),
        overrides_of(arguments)[name] == codec,
    decreases arguments.len(),
{
    let rest = arguments.drop_last();
    if i < arguments.len() - 1 {
        assert(arguments.last() == arguments[arguments.len() - 1]);
        assert(rest[i] == arguments[i]);
        assert forall|j: int| i < j < rest.len() implies (override_of(
            (#[trigger] rest[j])@,
        ) matches Some((other, _)) ==> other != name) by {
            assert(rest[j] == arguments[j]);
        }
        law_the_last_override_counts(rest, i, name, codec);
    }
}

/// A name that is not denied is recorded when it is allowed, or when nothing is allowed by name.
pub proof fn law_what_is_recorded(selection: Selection, name: Seq<char>)
    ensures
        selection.records(name) <==> (selection.include_names@.len() == 0 || any_covers(
            selection.include_names@,
            name,
        )) && !any_covers(selection.exclude_names@, name),
{
}

/// A channel outside the prefix, with a slash in front or without one, names the stream that stands before
/// the last separator.
pub proof fn law_channels_outside_the_prefix_are_named_whole(
    prefix: Seq<char>,
    separator: char,
    stream: Seq<char>,
    msg_name: Seq<char>,
)
    requires
        !prefix.is_prefix_of(stream.push(separator) + msg_name),
        !prefix.is_prefix_of(seq!['/'] + stream.push(separator) + msg_name),
        !msg_name.contains(separator),
        stream.len() > 0,
        stream[0] != '/',
    ensures
        channel_parts(stream.push(separator) + msg_name, prefix, separator) == (stream, msg_name),
        channel_parts(seq!['/'] + stream.push(separator) + msg_name, prefix, separator) == (
            stream,
            msg_name,
        ),
{
    reveal_strlit("/");
    assert("/"@ =~= seq!['/']);
    let bare = stream.push(separator) + msg_name;
    let led = seq!['/'] + stream.push(separator) + msg_name;
    assert(led =~= seq!['/'] + bare);
    assert("/"@ =~= led.subrange(0, 1));
    assert(led.skip(1) =~= bare);
    if "/"@.is_prefix_of(bare) {
        assert(bare[0] == bare.subrange(0, 1)[0]);
        assert(bare[0] == stream[0]);
    }
    lemma_split_last_behind(stream, separator, msg_name);
}

impl OverrideError {
    /// A complaint quotes the argument that it is about, and the codec that there is none of.
    pub proof fn law_complaints_quote_the_argument(self)
        ensures
        self matches OverrideError::NoColon(argument) ==> found(self.text(), argument@),
        self matches OverrideError::UnknownCodec { argument, codec } ==> found(self.text(), argument@),
        self matches OverrideError::UnknownCodec { argument, codec } ==> found(self.text(), codec@),
    {
        if let OverrideError::NoColon(argument) = self {
            lemma_found_whole(argument@);
            let front = "--record-codec wants NAME:CODEC, for example lidar:lz4+lcm, not "@;
            let back = Seq::empty();
            lemma_found(front, argument@, back, argument@);
            assert(self.text() =~= front + argument@ + back);
        }
        if let OverrideError::UnknownCodec { argument, codec } = self {
            lemma_found_whole(argument@);
            let front = "--record-codec "@;
            let back = ": "@ + codec@ + " is not one of cdr, lcm, lz4+lcm"@;
            lemma_found(front, argument@, back, argument@);
            assert(self.text() =~= front + argument@ + back);
        }
        if let OverrideError::UnknownCodec { argument, codec } = self {
            lemma_found_whole(codec@);
            let front = "--record-codec "@ + argument@ + ": "@;
            let back = " is not one of cdr, lcm, lz4+lcm"@;
            lemma_found(front, codec@, back, codec@);
            assert(self.text() =~= front + codec@ + back);
        }
    }
}

/// An argument that opens with a bracket, space aside, is a JSON array of names. Any other gives the names
/// between its commas.
pub proof fn law_arguments_are_arrays_or_names_between_commas(argument: Seq<char>)
    ensures
        trimmed(argument).len() > 0 && trimmed(argument)[0] == '[' ==> names_in(argument)
            == json_strings(trimmed(argument)),
        trimmed(argument).len() == 0 || trimmed(argument)[0] != '[' ==> names_in(argument)
            == Ok::<Seq<Seq<char>>, Seq<char>>(comma_names(trimmed(argument))),
{
    reveal_strlit("[");
    let text = trimmed(argument);
    if text.len() > 0 {
        assert(text.subrange(0, 1)[0] == text[0]);
        if text[0] == '[' {
            assert("["@ =~= text.subrange(0, 1));
        }
    }
}

/// The names of more arguments come behind those of the ones before them.
pub proof fn law_names_come_in_the_order_of_the_arguments(
    arguments: Seq<Seq<char>>,
    more: Seq<Seq<char>>,
)
    requires
        all_names(arguments) is Ok,
        all_names(more) is Ok,
    ensures
        all_names(arguments + more) == Ok::<Seq<Seq<char>>, (Seq<char>, Seq<char>)>(
            all_names(arguments)->Ok_0 + all_names(more)->Ok_0,
        ),
    decreases more.len(),
{
    let whole = arguments + more;
    if more.len() == 0 {
        assert(whole =~= arguments);
        assert(all_names(arguments)->Ok_0 + all_names(more)->Ok_0 =~= all_names(arguments)->Ok_0);
    } else {
        assert(whole.drop_last() =~= arguments + more.drop_last());
        law_names_come_in_the_order_of_the_arguments(arguments, more.drop_last());
        assert(all_names(arguments + more)->Ok_0 =~= all_names(arguments)->Ok_0 + all_names(
            more,
        )->Ok_0);
    }
}

/// A file is one of ROS when CDR was chosen for all streams or for any one of them.
pub proof fn law_a_file_with_any_cdr_stream_is_one_of_ros(codecs: Table<Codec>, default_codec: Codec)
    requires
        codecs.wf(),
    ensures
        stores_cdr(codecs, default_codec) <==> default_codec == Codec::Cdr || exists|stream: Seq<char>|
            codecs@.contains_key(stream) && #[trigger] codecs@[stream] == Codec::Cdr,
{
    if codecs.vals@.contains(Codec::Cdr) {
        let i = choose|i: int| 0 <= i < codecs.vals@.len() && codecs.vals@[i] == Codec::Cdr;
        lemma_rank_of_member(codecs.keys@, i);
        let stream = codecs.keys@[i];
        assert(codecs.keys@.contains(stream));
        assert(codecs@.contains_key(stream) && codecs@[stream] == Codec::Cdr);
    }
    if exists|stream: Seq<char>|
        codecs@.contains_key(stream) && #[trigger] codecs@[stream] == Codec::Cdr {
        let stream = choose|stream: Seq<char>|
            codecs@.contains_key(stream) && #[trigger] codecs@[stream] == Codec::Cdr;
        let i = choose|i: int| 0 <= i < codecs.keys@.len() && codecs.keys@[i] == stream;
        lemma_rank_of_member(codecs.keys@, i);
        assert(codecs.vals@[i] == Codec::Cdr);
    }
}

/// A message is stored as CDR under the name of the type that it is recorded as; with any other codec it is
/// stored under the name that it came with.
pub proof fn law_messages_are_stored_under_a_type(
    codec: Codec,
    msg_name: Seq<char>,
    decoded: Result<Message, String>,
)
    ensures
        codec != Codec::Cdr ==> stored_as(codec, msg_name, decoded) == Ok::<
            (Seq<char>, Option<Seq<char>>),
            Seq<char>,
        >((msg_name, None)),
        codec == Codec::Cdr ==> (decoded matches Ok(message) ==> (stored_as(
            codec,
            msg_name,
            decoded,
        ) is Ok <==> msg_name == message.message_type().name())),
        codec == Codec::Cdr && decoded is Err ==> stored_as(codec, msg_name, decoded) is Err,
        codec == Codec::Cdr ==> (decoded matches Ok(message) ==> (message !is Image && msg_name
            == message.message_type().name() ==> stored_as(codec, msg_name, decoded) == Ok::<
            (Seq<char>, Option<Seq<char>>),
            Seq<char>,
        >((msg_name, None)))),
{
    if let Ok(message) = decoded {
        law_types_have_one_name_each(message.message_type(), msg_name);
    }
}

} // verus!
