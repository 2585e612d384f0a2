//! The streams of a recorded `.db` or `.mcap`, and reading them.
//!
//! The rows of a `.db` come in timestamp order, stream against stream. The messages of an `.mcap` come as
//! they stand in the file.
pub mod reading;
pub mod summary;
use crate::cdr::members::stands_in;
use crate::cdr::reader::F64;
use crate::cdr::types::{law_types_have_one_name_each, type_named, Message, MessageType};
use crate::cdr::{msg_name_from_schema, schema_type, supports, to_lcm, transcoded, CdrError};
use crate::order::{texts_of, Table};
use crate::outside::{json_members, json_two_members, lz4_content, lz4_decode, string_view};
use crate::pattern::{picked, selects};
use crate::schema::{law_schema_names_name_their_type, schema_name_of};
use crate::stamp::{support_for, support_of, Support};
use crate::text::{
    chars_of, ends_with, found, lemma_found, lemma_found_whole, lemma_last_index, rsplit_once,
    same, split_last, strip_prefix, without_prefix,
};
use std::collections::VecDeque;
use vstd::prelude::*;

verus! {

/// How a stream's stored bytes relate to its LCM wire bytes.
#[derive(Debug, Clone, Copy, PartialEq, Eq, Structural)]
pub enum Storage {
    /// Stored bytes are already the wire bytes (`lcm`, and `jpeg`, which is an LCM Image whose
    /// `encoding` field says `jpeg`).
    Wire,
    /// LZ4 frame around the wire bytes.
    Lz4,
    /// ROS 2 CDR, transcoded to LCM per message.
    Cdr,
    /// Python pickle, or a CDR type with no LCM counterpart: meaningless to an LCM or Zenoh
    /// subscriber.
    Unsupported,
}

/// How the bytes that a codec stores relate to the wire bytes.
pub open spec fn storage_of(codec_id: Seq<char>) -> Storage {
    if codec_id == "lcm"@ || codec_id == "jpeg"@ {
        Storage::Wire
    } else if codec_id == "lz4+lcm"@ || codec_id == "lz4+jpeg"@ {
        Storage::Lz4
    } else {
        Storage::Unsupported
    }
}

pub fn storage_for(codec_id: &str) -> (r: Storage)
    ensures
        r == storage_of(codec_id@),
{
    if same(codec_id, "lcm") || same(codec_id, "jpeg") {
        Storage::Wire
    } else if same(codec_id, "lz4+lcm") || same(codec_id, "lz4+jpeg") {
        Storage::Lz4
    } else {
        Storage::Unsupported
    }
}

#[derive(Debug, Clone, PartialEq, Eq)]
pub struct Stream {
    /// As recorded: the SQL table name, or the mcap channel topic.
    pub name: String,
    /// The name to publish under. Starts as `name`; renaming rewrites it.
    pub published: String,
    /// e.g. `sensor_msgs.Image`; the suffix used in LCM channels and Zenoh keys.
    pub msg_name: String,
    pub storage: Storage,
    pub support: Support,
    pub count: u64,
}

impl Stream {
    /// Whether a stream is one of that name as it was recorded, carrying messages of that type.
    pub open spec fn recorded_as(
        self,
        name: Seq<char>,
        msg_name: Seq<char>,
        storage: Storage,
        count: u64,
    ) -> bool {
        &&& self.name@ == name
        &&& self.published@ == name
        &&& self.msg_name@ == msg_name
        &&& self.storage == storage
        &&& self.support == support_of(msg_name)
        &&& self.count == count
    }

    fn new(name: String, msg_name: String, storage: Storage, count: u64) -> (r: Stream)
        ensures
            r.recorded_as(name@, msg_name@, storage, count),
    {
        Stream {
            support: support_for(msg_name.as_str()),
            msg_name,
            storage,
            published: name.clone(),
            name,
            count,
        }
    }
}

/// The type that a python module path names: without the leading package, and without its last
/// segment where that repeats the end of what stands before it.
pub open spec fn module_type(payload_module: Seq<char>) -> Seq<char> {
    let path = match without_prefix(payload_module, "dimos.msgs."@) {
        Some(path) => path,
        None => payload_module,
    };
    match split_last(path, '.') {
        Some((module, class)) => if class.is_suffix_of(module) {
            module
        } else {
            path
        },
        None => path,
    }
}

/// `dimos.msgs.sensor_msgs.Image.Image` -> `sensor_msgs.Image`.
///
/// Each message module is named after its single exported class, so dropping the trailing class
/// segment recovers the `msg_name` the transports use.
pub fn msg_name_from_payload_module(payload_module: &str) -> (r: String)
    ensures
        r@ == module_type(payload_module@),
{
    let path: &str = match strip_prefix(payload_module, "dimos.msgs.") {
        Some(path) => path,
        None => payload_module,
    };
    match rsplit_once(path, '.') {
        Some((module, class)) => {
            if ends_with(module, class) {
                module.to_owned()
            } else {
                path.to_owned()
            }
        },
        None => path.to_owned(),
    }
}

// ---------------------------------------------------------------------- dimos .db
/// Why the streams of a recording could not be told.
#[derive(Debug, PartialEq, Eq)]
pub enum SourceError {
    /// The configuration of the named stream is not JSON, with the parser's own words.
    BadConfig { name: String, why: String },
    /// No stream of the file was picked.
    NoStreams { path: String },
    /// No channel of the file was picked.
    NoChannels { path: String },
    /// The file does not say which channels it holds.
    NoSummary,
    /// What the file says of its channels leads nowhere.
    Damaged { path: String },
    /// The file is not an mcap, in the reader's own words.
    NoMcap { why: String },
}

impl SourceError {
    /// What the error reads like.
    pub open spec fn text(&self) -> Seq<char> {
        match self {
            SourceError::BadConfig { name, why } => "bad config for "@ + name@,
            SourceError::NoStreams { path } => "no matching streams in "@ + path@,
            SourceError::NoChannels { path } => "no matching channels in "@ + path@,
            SourceError::NoSummary => "mcap has no summary section; cannot enumerate channels"@,
            SourceError::Damaged { path } => "the summary section of "@ + path@ + " is damaged"@,
            SourceError::NoMcap { why } => why@,
        }
    }

    pub fn message(&self) -> (r: String)
        ensures
            r@ == self.text(),
    {
        match self {
            SourceError::BadConfig { name, why } => {
                let mut text: String = "bad config for ".to_owned();
                text.append(name.as_str());
                text
            },
            SourceError::NoStreams { path } => {
                let mut text: String = "no matching streams in ".to_owned();
                text.append(path.as_str());
                text
            },
            SourceError::NoChannels { path } => {
                let mut text: String = "no matching channels in ".to_owned();
                text.append(path.as_str());
                text
            },
            SourceError::NoSummary => {
                "mcap has no summary section; cannot enumerate channels".to_owned()
            },
            SourceError::Damaged { path } => {
                let mut text: String = "the summary section of ".to_owned();
                text.append(path.as_str());
                text.append(" is damaged");
                text
            },
            SourceError::NoMcap { why } => why.clone(),
        }
    }
}

/// A member, or nothing where there is none.
pub open spec fn or_empty(member: Option<Seq<char>>) -> Seq<char> {
    match member {
        Some(text) => text,
        None => Seq::empty(),
    }
}

fn text_or_empty(member: Option<String>) -> (r: String)
    ensures
        r@ == or_empty(string_view(member)),
{
    match member {
        Some(text) => text,
        None => String::new(),
    }
}

/// The stream that a row of the stream table describes by its JSON configuration.
pub fn stream_from_config(name: String, config: &str, count: u64) -> (r: Result<
    Stream,
    SourceError,
>)
    ensures
        match json_members(config@, "payload_module"@, "codec_id"@) {
            Ok((payload_module, codec_id)) => {
                &&& r matches Ok(stream) && stream.recorded_as(
                    name@,
                    module_type(or_empty(payload_module)),
                    storage_of(or_empty(codec_id)),
                    count,
                )
            },
            Err(complaint) => {
                &&& r matches Err(SourceError::BadConfig { name: n, why }) && n@ == name@ && why@
                    == complaint
            },
        },
{
    match json_two_members(config, "payload_module", "codec_id") {
        Ok((payload_module, codec_id)) => Ok(
            configured_stream(name, payload_module, codec_id, count),
        ),
        Err(why) => Err(SourceError::BadConfig { name, why }),
    }
}

/// The stream whose configuration names this payload module and this codec.
pub fn configured_stream(
    name: String,
    payload_module: Option<String>,
    codec_id: Option<String>,
    count: u64,
) -> (r: Stream)
    ensures
        r.recorded_as(
            name@,
            module_type(or_empty(string_view(payload_module))),
            storage_of(or_empty(string_view(codec_id))),
            count,
        ),
{
    let msg_name: String = msg_name_from_payload_module(text_or_empty(payload_module).as_str());
    let storage: Storage = storage_for(text_or_empty(codec_id).as_str());
    Stream::new(name, msg_name, storage, count)
}

/// `s` with every `"` doubled.
pub open spec fn doubled_quotes(s: Seq<char>) -> Seq<char>
    decreases s.len(),
{
    if s.len() == 0 {
        s
    } else if s.last() == '"' {
        doubled_quotes(s.drop_last()) + seq!['"', '"']
    } else {
        doubled_quotes(s.drop_last()).push(s.last())
    }
}

/// An SQL identifier between quotes.
pub open spec fn quoted(identifier: Seq<char>) -> Seq<char> {
    seq!['"'] + doubled_quotes(identifier) + seq!['"']
}

/// SQLite identifiers are quoted, not bound, so the stream name has to be escaped.
pub fn quote(identifier: &str) -> (r: String)
    ensures
        r@ == quoted(identifier@),
{
    let chars: Vec<char> = chars_of(identifier);
    let mut out: String = String::new();
    out.push('"');
    let mut i: usize = 0;
    assert(identifier@.take(0) =~= Seq::empty());
    assert(out@ =~= seq!['"'] + doubled_quotes(identifier@.take(0)));
    while i < chars.len()
        invariant
            i <= chars@.len(),
            chars@ == identifier@,
            out@ == seq!['"'] + doubled_quotes(identifier@.take(i as int)),
        decreases chars@.len() - i,
    {
        assert(identifier@.take(i + 1).drop_last() =~= identifier@.take(i as int));
        if chars[i] == '"' {
            out.push('"');
        }
        out.push(chars[i]);
        assert(out@ =~= seq!['"'] + doubled_quotes(identifier@.take(i + 1)));
        i = i + 1;
    }
    assert(identifier@.take(i as int) =~= identifier@);
    out.push('"');
    assert(out@ =~= quoted(identifier@));
    out
}

proof fn lemma_doubled_quotes_differ(a: Seq<char>, b: Seq<char>)
    requires
        doubled_quotes(a) == doubled_quotes(b),
    ensures
        a == b,
    decreases a.len() + b.len(),
{
    if a.len() == 0 || b.len() == 0 {
        assert(doubled_quotes(Seq::<char>::empty()).len() == 0);
        if a.len() > 0 {
            assert(doubled_quotes(a).len() > 0);
        }
        if b.len() > 0 {
            assert(doubled_quotes(b).len() > 0);
        }
        assert(a =~= b);
    } else {
        let rest_a = doubled_quotes(a.drop_last());
        let rest_b = doubled_quotes(b.drop_last());
        let whole = doubled_quotes(a);
        assert(whole.last() == a.last());
        assert(whole.last() == b.last());
        let n = if a.last() == '"' {
            whole.len() - 2
        } else {
            whole.len() - 1
        };
        assert(whole.take(n) =~= rest_a);
        assert(whole.take(n) =~= rest_b);
        lemma_doubled_quotes_differ(a.drop_last(), b.drop_last());
        assert(a =~= a.drop_last().push(a.last()));
        assert(b =~= b.drop_last().push(b.last()));
    }
}

/// Different identifiers stay different between their quotes.
pub proof fn law_quoting_keeps_identifiers_apart(a: Seq<char>, b: Seq<char>)
    requires
        quoted(a) == quoted(b),
    ensures
        a == b,
{
    assert(quoted(a).subrange(1, quoted(a).len() - 1) =~= doubled_quotes(a));
    assert(quoted(b).subrange(1, quoted(b).len() - 1) =~= doubled_quotes(b));
    lemma_doubled_quotes_differ(a, b);
}

// -------------------------------------------------------------------- cursors
/// Where a timestamp stands among all others: the total order of floating-point numbers, negative
/// ones before positive ones.
pub open spec fn order_key(ts: F64) -> int {
    if ts.bits < 0x8000_0000_0000_0000 {
        ts.bits as int
    } else {
        0x7fff_ffff_ffff_ffff - ts.bits
    }
}

/// Whether one timestamp stands before another.
pub fn earlier(a: F64, b: F64) -> (r: bool)
    ensures
        r == (order_key(a) < order_key(b)),
{
    let a_negative: bool = a.bits >= 0x8000_0000_0000_0000;
    let b_negative: bool = b.bits >= 0x8000_0000_0000_0000;
    if a_negative {
        !b_negative || a.bits > b.bits
    } else {
        !b_negative && a.bits < b.bits
    }
}

/// Negative infinity, which every timestamp is later than.
pub const BEFORE_ALL: u64 = 0xfff0_0000_0000_0000;

/// How many rows are asked for at a time, so that a multi-gigabyte recording never has to be indexed
/// in memory; blobs are fetched individually as each message is due.
pub const INDEX_PAGE: usize = 4096;

/// How far the reading of one stream has come.
#[derive(Debug)]
pub struct Cursor {
    pub stream: usize,
    /// The quoted name of the index table.
    pub table: String,
    /// The quoted name of the table that holds the payloads.
    pub blob_table: String,
    /// Rows that were read but not taken yet: the row's id and its timestamp.
    pub page: VecDeque<(i64, F64)>,
    /// The timestamp of the last row that was read.
    pub last_ts: F64,
    /// Whether there are no more rows to read.
    pub done: bool,
}

impl Cursor {
    /// Whether a cursor stands before the first row of a stream.
    pub open spec fn at_start(self, index: int, stream: Stream) -> bool {
        &&& self.stream == index
        &&& self.table@ == quoted(stream.name@)
        &&& self.blob_table@ == quoted(stream.name@ + "_blob"@)
        &&& self.page@.len() == 0
        &&& self.last_ts.bits == BEFORE_ALL
        &&& !self.done
    }

    /// Whether more rows have to be read before the next message can be told.
    pub open spec fn runs_dry(self) -> bool {
        self.page@.len() == 0 && !self.done
    }

    /// The query for the next rows, which takes the last timestamp and a number of rows.
    pub fn page_query(&self) -> (r: String)
        ensures
            r@ == "SELECT id, ts FROM "@ + self.table@ + " WHERE ts > ?1 ORDER BY ts LIMIT ?2"@,
    {
        let mut sql: String = "SELECT id, ts FROM ".to_owned();
        sql.append(self.table.as_str());
        sql.append(" WHERE ts > ?1 ORDER BY ts LIMIT ?2");
        sql
    }

    /// The query for a payload, which takes the row's id.
    pub fn blob_query(&self) -> (r: String)
        ensures
            r@ == "SELECT data FROM "@ + self.blob_table@ + " WHERE id = ?1"@,
    {
        let mut sql: String = "SELECT data FROM ".to_owned();
        sql.append(self.blob_table.as_str());
        sql.append(" WHERE id = ?1");
        sql
    }

    /// What a cursor becomes by taking in some rows; none means that there are no more.
    pub open spec fn filled(self, rows: Seq<(i64, F64)>, after: Cursor) -> bool {
        &&& after.stream == self.stream
        &&& after.table == self.table
        &&& after.blob_table == self.blob_table
        &&& after.page@ == self.page@ + rows
        &&& after.done == (self.done || rows.len() == 0)
        &&& after.last_ts == (if rows.len() == 0 {
            self.last_ts
        } else {
            rows.last().1
        })
    }

    /// Takes in the rows that were read.
    pub fn fill(&mut self, rows: &Vec<(i64, F64)>)
        ensures
            old(self).filled(rows@, *final(self)),
    {
        if rows.len() == 0 {
            self.done = true;
            assert(self.page@ =~= old(self).page@ + rows@);
            return;
        }
        self.last_ts = rows[rows.len() - 1].1;
        let mut i: usize = 0;
        assert(self.page@ =~= old(self).page@ + rows@.take(0));
        while i < rows.len()
            invariant
                i <= rows@.len(),
                self.stream == old(self).stream,
                self.table == old(self).table,
                self.blob_table == old(self).blob_table,
                self.done == old(self).done,
                self.last_ts == rows@.last().1,
                self.page@ == old(self).page@ + rows@.take(i as int),
            decreases rows@.len() - i,
        {
            self.page.push_back(rows[i]);
            assert(self.page@ =~= old(self).page@ + rows@.take(i + 1));
            i = i + 1;
        }
        assert(rows@.take(i as int) =~= rows@);
    }
}

/// One cursor for each stream, before its first row.
pub fn new_cursors(streams: &[Stream]) -> (cursors: Vec<Cursor>)
    ensures
        all_at_start(cursors@, streams@),
{
    let mut cursors: Vec<Cursor> = Vec::new();
    let mut i: usize = 0;
    while i < streams.len()
        invariant
            i <= streams@.len(),
            cursors@.len() == i,
            forall|j: int| 0 <= j < i ==> (#[trigger] cursors@[j]).at_start(j, streams@[j]),
        decreases streams@.len() - i,
    {
        let mut blob: String = streams[i].name.clone();
        blob.append("_blob");
        cursors.push(
            Cursor {
                stream: i,
                table: quote(streams[i].name.as_str()),
                blob_table: quote(blob.as_str()),
                page: VecDeque::new(),
                last_ts: F64 { bits: BEFORE_ALL },
                done: false,
            },
        );
        i = i + 1;
    }
    cursors
}

/// The first cursor that has to be filled before the next message can be told.
pub fn next_to_fill(cursors: &Vec<Cursor>) -> (r: Option<usize>)
    ensures
        match r {
            Some(i) => {
                &&& i < cursors@.len()
                &&& cursors@[i as int].runs_dry()
                &&& forall|j: int| 0 <= j < i ==> !(#[trigger] cursors@[j]).runs_dry()
            },
            None => forall|j: int| 0 <= j < cursors@.len() ==> !(#[trigger] cursors@[j]).runs_dry(),
        },
{
    let mut i: usize = 0;
    while i < cursors.len()
        invariant
            i <= cursors@.len(),
            forall|j: int| 0 <= j < i ==> !(#[trigger] cursors@[j]).runs_dry(),
        decreases cursors@.len() - i,
    {
        if cursors[i].page.len() == 0 && !cursors[i].done {
            return Some(i);
        }
        i = i + 1;
    }
    None
}

/// Whether the head of a cursor's page is the earliest of all, and no cursor before it has as early
/// a one.
pub open spec fn heads_all(cursors: Seq<Cursor>, i: int) -> bool {
    &&& 0 <= i < cursors.len()
    &&& cursors[i].page@.len() > 0
    &&& forall|j: int|
        0 <= j < cursors.len() && (#[trigger] cursors[j]).page@.len() > 0 ==> {
            &&& order_key(cursors[i].page@[0].1) <= order_key(cursors[j].page@[0].1)
            &&& j < i ==> order_key(cursors[i].page@[0].1) < order_key(cursors[j].page@[0].1)
        }
}

/// A message that is due: where its payload is to be found.
#[derive(Debug, Clone, Copy)]
pub struct Due {
    /// The cursor that it was taken from.
    pub cursor: usize,
    pub stream: usize,
    pub id: i64,
    pub ts: F64,
}

/// What the cursors become by giving up the earliest of all waiting messages. Among equally early ones
/// the first stream's goes first.
pub open spec fn gives_up(before: Seq<Cursor>, due: Due, after: Seq<Cursor>) -> bool {
    let i = due.cursor as int;
    &&& heads_all(before, i)
    &&& due.stream == before[i].stream
    &&& (due.id, due.ts) == before[i].page@[0]
    &&& after.len() == before.len()
    &&& forall|j: int| 0 <= j < before.len() && j != i ==> #[trigger] after[j] == before[j]
    &&& after[i].page@ == before[i].page@.skip(1)
    &&& after[i].stream == before[i].stream
    &&& after[i].table == before[i].table
    &&& after[i].blob_table == before[i].blob_table
    &&& after[i].last_ts == before[i].last_ts
    &&& after[i].done == before[i].done
}

/// Takes the earliest message off the cursors.
pub fn take_earliest(cursors: &mut Vec<Cursor>) -> (r: Option<Due>)
    ensures
        match r {
            Some(due) => gives_up(old(cursors)@, due, final(cursors)@),
            None => {
                &&& *final(cursors) == *old(cursors)
                &&& forall|j: int|
                    0 <= j < old(cursors)@.len() ==> (#[trigger] old(cursors)@[j]).page@.len() == 0
            },
        },
{
    let mut best: Option<usize> = None;
    let mut i: usize = 0;
    while i < cursors.len()
        invariant
            i <= cursors@.len(),
            *cursors == *old(cursors),
            match best {
                Some(b) => b < i && heads_all(cursors@.take(i as int), b as int),
                None => forall|j: int|
                    0 <= j < i ==> (#[trigger] cursors@[j]).page@.len() == 0,
            },
        decreases cursors@.len() - i,
    {
        let ghost seen = cursors@.take(i as int);
        let ghost more = cursors@.take(i + 1);
        assert(forall|j: int| 0 <= j < i ==> #[trigger] more[j] == seen[j]);
        assert(more[i as int] == cursors@[i as int]);
        if cursors[i].page.len() > 0 {
            let better: bool = match best {
                Some(b) => earlier(cursors[i].page[0].1, cursors[b].page[0].1),
                None => true,
            };
            if better {
                best = Some(i);
            }
        }
        i = i + 1;
    }
    assert(cursors@.take(i as int) =~= cursors@);
    match best {
        Some(b) => {
            let stream: usize = cursors[b].stream;
            let cursor: &mut Cursor = &mut cursors[b];
            match cursor.page.pop_front() {
                Some((id, ts)) => Some(Due { cursor: b, stream, id, ts }),
                None => None,
            }
        },
        None => None,
    }
}

/// Whether nothing waits and nothing is left to read, so that no message comes any more.
pub open spec fn finished(cursors: Seq<Cursor>) -> bool {
    forall|j: int|
        0 <= j < cursors.len() ==> (#[trigger] cursors[j]).page@.len() == 0 && cursors[j].done
}

/// Whether cursors stand before the first rows of streams.
pub open spec fn all_at_start(cursors: Seq<Cursor>, streams: Seq<Stream>) -> bool {
    &&& cursors.len() == streams.len()
    &&& forall|i: int| 0 <= i < streams.len() ==> (#[trigger] cursors[i]).at_start(i, streams[i])
}

/// What there is to do for the next message of a `.db`.
#[derive(Debug, Clone, Copy)]
pub enum Next {
    /// Read more rows of a stream, and ask again.
    Fill { cursor: usize },
    /// Fetch the payload of this message: it is the next.
    Message(Due),
    /// Nothing: there are no more messages.
    Finished,
}

impl Next {
    /// The cursors before and after this is told. The message that is told is the earliest of all, and
    /// among equally early ones that of the first stream; so no stream may have run dry by then.
    pub open spec fn told(self, before: Seq<Cursor>, after: Seq<Cursor>) -> bool {
        match self {
            Next::Fill { cursor } => {
                &&& after == before
                &&& cursor < before.len()
                &&& before[cursor as int].runs_dry()
                &&& forall|j: int| 0 <= j < cursor ==> !(#[trigger] before[j]).runs_dry()
            },
            Next::Message(due) => {
                &&& forall|j: int| 0 <= j < before.len() ==> !(#[trigger] before[j]).runs_dry()
                &&& gives_up(before, due, after)
            },
            Next::Finished => after == before && finished(before),
        }
    }
}

/// Whether one of the cursors took in some rows.
pub open spec fn one_filled(
    before: Seq<Cursor>,
    i: int,
    rows: Seq<(i64, F64)>,
    after: Seq<Cursor>,
) -> bool {
    &&& after.len() == before.len()
    &&& before[i].filled(rows, after[i])
    &&& forall|j: int| 0 <= j < before.len() && j != i ==> #[trigger] after[j] == before[j]
}

/// The streams of a `.db`, and how far they have been read.
#[derive(Debug)]
pub struct DbSource {
    pub streams: Vec<Stream>,
    pub cursors: Vec<Cursor>,
}

impl DbSource {
    /// Starts reading the streams that were picked. `path` is what the file is called in an error.
    pub fn open(streams: Vec<Stream>, path: &str) -> (r: Result<DbSource, SourceError>)
        ensures
            match r {
                Ok(source) => {
                    &&& streams@.len() > 0
                    &&& source.streams == streams
                    &&& all_at_start(source.cursors@, streams@)
                },
                Err(error) => streams@.len() == 0 && (error matches SourceError::NoStreams { path: p }
                    && p@ == path@),
            },
    {
        match some_streams(&streams, path) {
            Ok(()) => {
                let cursors: Vec<Cursor> = new_cursors(streams.as_slice());
                Ok(DbSource { streams, cursors })
            },
            Err(error) => Err(error),
        }
    }

    /// Takes in the rows that were read for a cursor.
    pub fn fill(&mut self, cursor: usize, rows: &Vec<(i64, F64)>)
        requires
            cursor < old(self).cursors@.len(),
        ensures
            final(self).streams == old(self).streams,
            one_filled(old(self).cursors@, cursor as int, rows@, final(self).cursors@),
    {
        let filled: &mut Cursor = &mut self.cursors[cursor];
        filled.fill(rows);
    }

    /// What there is to do for the next message.
    pub fn next(&mut self) -> (r: Next)
        ensures
            final(self).streams == old(self).streams,
            r.told(old(self).cursors@, final(self).cursors@),
            !(r is Message) ==> *final(self) == *old(self),
    {
        match next_to_fill(&self.cursors) {
            Some(cursor) => Next::Fill { cursor },
            None => match take_earliest(&mut self.cursors) {
                Some(due) => Next::Message(due),
                None => Next::Finished,
            },
        }
    }

    /// Starts again before the first rows.
    pub fn rewind(&mut self)
        ensures
            final(self).streams == old(self).streams,
            all_at_start(final(self).cursors@, old(self).streams@),
    {
        self.cursors = new_cursors(self.streams.as_slice());
    }
}

/// Whether the rows of a page are in timestamp order.
pub open spec fn page_in_order(page: Seq<(i64, F64)>) -> bool {
    forall|i: int, j: int|
        0 <= i <= j < page.len() ==> order_key((#[trigger] page[i]).1) <= order_key(
            (#[trigger] page[j]).1,
        )
}

/// Whether rows are such as the query for the next ones gives: in timestamp order, and none of them
/// before the last one that was read.
pub open spec fn follow(rows: Seq<(i64, F64)>, last_ts: F64) -> bool {
    &&& page_in_order(rows)
    &&& rows.len() > 0 ==> order_key(last_ts) <= order_key(rows[0].1)
}

/// Whether nothing that the cursors hold, or have yet to read, comes before some point in time.
pub open spec fn in_order_from(cursors: Seq<Cursor>, point: int) -> bool {
    forall|j: int|
        0 <= j < cursors.len() ==> {
            let cursor = #[trigger] cursors[j];
            &&& page_in_order(cursor.page@)
            &&& cursor.page@.len() > 0 ==> point <= order_key(cursor.page@[0].1) && cursor.last_ts
                == cursor.page@.last().1
            &&& cursor.runs_dry() ==> point <= order_key(cursor.last_ts)
        }
}

/// Reading starts in order.
pub proof fn law_reading_starts_in_order(streams: Seq<Stream>, cursors: Seq<Cursor>)
    requires
        all_at_start(cursors, streams),
    ensures
        in_order_from(cursors, order_key(F64 { bits: BEFORE_ALL })),
{
}

/// Reading more rows of a stream keeps the order, when they come as the query gives them.
pub proof fn law_filling_keeps_the_order(
    before: Seq<Cursor>,
    i: int,
    rows: Seq<(i64, F64)>,
    after: Cursor,
    point: int,
)
    requires
        in_order_from(before, point),
        0 <= i < before.len(),
        before[i].runs_dry(),
        follow(rows, before[i].last_ts),
        before[i].filled(rows, after),
    ensures
        in_order_from(before.update(i, after), point),
{
    assert(after.page@ =~= rows);
}

/// Messages come in timestamp order: the one that is taken is not before any that was taken earlier,
/// nothing that still waits or has yet to be read is before it, and so on with the next.
pub proof fn law_messages_come_in_timestamp_order(
    before: Seq<Cursor>,
    due: Due,
    after: Seq<Cursor>,
    point: int,
)
    requires
        in_order_from(before, point),
        forall|j: int| 0 <= j < before.len() ==> !(#[trigger] before[j]).runs_dry(),
        gives_up(before, due, after),
    ensures
        point <= order_key(due.ts),
        in_order_from(after, order_key(due.ts)),
        forall|j: int, k: int|
            0 <= j < after.len() && 0 <= k < after[j].page@.len() ==> order_key(due.ts)
                <= order_key((#[trigger] after[j].page@[k]).1),
{
    let i = due.cursor as int;
    let page = before[i].page@;
    assert forall|j: int| 0 <= j < after.len() implies ({
        let cursor = #[trigger] after[j];
        &&& page_in_order(cursor.page@)
        &&& cursor.page@.len() > 0 ==> order_key(due.ts) <= order_key(cursor.page@[0].1)
            && cursor.last_ts == cursor.page@.last().1
        &&& cursor.runs_dry() ==> order_key(due.ts) <= order_key(cursor.last_ts)
    }) by {
        if j == i {
            let rest = after[i].page@;
            assert forall|a: int, b: int| 0 <= a <= b < rest.len() implies order_key(
                (#[trigger] rest[a]).1,
            ) <= order_key((#[trigger] rest[b]).1) by {
                assert(rest[a] == page[a + 1]);
                assert(rest[b] == page[b + 1]);
            }
            if rest.len() > 0 {
                assert(rest[0] == page[1]);
            }
        } else {
            assert(after[j] == before[j]);
        }
    }
    assert forall|j: int, k: int| 0 <= j < after.len() && 0 <= k < after[j].page@.len() implies order_key(
        due.ts,
    ) <= order_key((#[trigger] after[j].page@[k]).1) by {
        assert(page_in_order(after[j].page@));
        assert(order_key(after[j].page@[0].1) <= order_key(after[j].page@[k].1));
    }
}

// ---------------------------------------------------------------------- .mcap
/// What an mcap file says of one of its channels: its topic, how its messages are encoded, its metadata,
/// the name of its schema, and how many messages it holds, where the file says so.
pub type Listed = (
    Seq<char>,
    Seq<char>,
    Map<Seq<char>, Seq<char>>,
    Option<Seq<char>>,
    Option<u64>,
);

/// The name of the stream that a channel holds: the one the recorder noted, or else the topic without
/// its slash. ROS topics lead with `/`; stream names never do, and the slash would otherwise show up in
/// every channel and key expression.
pub open spec fn listed_name(channel: Listed) -> Seq<char> {
    let (topic, _, metadata, _, _) = channel;
    if metadata.contains_key("dimos.stream_name"@) {
        metadata["dimos.stream_name"@]
    } else {
        match without_prefix(topic, "/"@) {
            Some(name) => name,
            None => topic,
        }
    }
}

/// The type of a channel's messages and how they are stored. A recorder of our own kind stores LCM bytes
/// and names the python type in the metadata; others store CDR under a ROS schema name.
pub open spec fn listed_content(channel: Listed) -> (Seq<char>, Storage) {
    let (_, message_encoding, metadata, schema_name, _) = channel;
    if message_encoding == "lcm"@ {
        let payload_module = if metadata.contains_key("dimos.payload_type"@) {
            metadata["dimos.payload_type"@]
        } else {
            Seq::empty()
        };
        (module_type(payload_module), Storage::Wire)
    } else if message_encoding == "cdr"@ {
        let msg_name = schema_type(or_empty(schema_name));
        (
            msg_name,
            if type_named(msg_name) is Some {
                Storage::Cdr
            } else {
                Storage::Unsupported
            },
        )
    } else {
        (Seq::empty(), Storage::Unsupported)
    }
}

/// How many messages a channel is said to hold.
pub open spec fn listed_count(channel: Listed) -> u64 {
    match channel.4 {
        Some(count) => count,
        None => 0,
    }
}

/// A channel of an mcap file.
#[derive(Debug)]
pub struct ChannelInfo {
    pub topic: String,
    pub message_encoding: String,
    pub metadata: Table<String>,
    pub schema_name: Option<String>,
    /// How many messages the channel holds, where the file says so.
    pub count: Option<u64>,
}

impl ChannelInfo {
    /// What the file says of the channel.
    pub open spec fn listed(self) -> Listed {
        (
            self.topic@,
            self.message_encoding@,
            texts_of(self.metadata),
            string_view(self.schema_name),
            self.count,
        )
    }

    pub open spec fn stream_name(self) -> Seq<char> {
        listed_name(self.listed())
    }

    pub open spec fn content(self) -> (Seq<char>, Storage) {
        listed_content(self.listed())
    }

    pub open spec fn counted(self) -> u64 {
        listed_count(self.listed())
    }

    fn name(&self) -> (r: String)
        requires
            self.metadata.wf(),
        ensures
            r@ == self.stream_name(),
    {
        match self.metadata.find("dimos.stream_name") {
            Some(i) => self.metadata.vals[i].clone(),
            None => match strip_prefix(self.topic.as_str(), "/") {
                Some(name) => name.to_owned(),
                None => self.topic.clone(),
            },
        }
    }

    /// The stream that the channel holds.
    pub fn stream(&self) -> (r: Stream)
        requires
            self.metadata.wf(),
        ensures
            r.recorded_as(
                self.stream_name(),
                self.content().0,
                self.content().1,
                self.counted(),
            ),
    {
        let (msg_name, storage): (String, Storage) = if same(
            self.message_encoding.as_str(),
            "lcm",
        ) {
            let msg_name: String = match self.metadata.find("dimos.payload_type") {
                Some(i) => msg_name_from_payload_module(self.metadata.vals[i].as_str()),
                None => msg_name_from_payload_module(String::new().as_str()),
            };
            (msg_name, Storage::Wire)
        } else if same(self.message_encoding.as_str(), "cdr") {
            let msg_name: String = match &self.schema_name {
                Some(schema) => msg_name_from_schema(schema.as_str()),
                None => msg_name_from_schema(String::new().as_str()),
            };
            let storage: Storage = if supports(msg_name.as_str()) {
                Storage::Cdr
            } else {
                Storage::Unsupported
            };
            (msg_name, storage)
        } else {
            (String::new(), Storage::Unsupported)
        };
        let count: u64 = match self.count {
            Some(count) => count,
            None => 0,
        };
        Stream::new(self.name(), msg_name, storage, count)
    }
}

/// The streams of an mcap file that were picked.
#[derive(Debug)]
pub struct Catalog {
    pub streams: Vec<Stream>,
    /// Channel topic -> index into `streams`; absent for channels filtered out.
    pub by_topic: Table<usize>,
}

impl Catalog {
    pub open spec fn wf(self) -> bool {
        &&& self.by_topic.wf()
        &&& forall|topic: Seq<char>|
            self.by_topic@.contains_key(topic) ==> #[trigger] self.by_topic@[topic]
                < self.streams@.len()
    }

    pub fn new() -> (r: Catalog)
        ensures
            r.wf(),
            r.streams@.len() == 0,
            r.by_topic@ == Map::<Seq<char>, usize>::empty(),
    {
        Catalog { streams: Vec::new(), by_topic: Table::new() }
    }

    /// Adds the stream of a channel, unless its name is not one of those picked.
    pub fn add(&mut self, channel: &ChannelInfo, patterns: &[String])
        requires
            old(self).wf(),
            channel.metadata.wf(),
        ensures
            final(self).wf(),
            if picked(patterns@, channel.stream_name()) {
                &&& final(self).streams@.len() == old(self).streams@.len() + 1
                &&& final(self).streams@.drop_last() == old(self).streams@
                &&& final(self).streams@.last().recorded_as(
                    channel.stream_name(),
                    channel.content().0,
                    channel.content().1,
                    channel.counted(),
                )
                &&& final(self).by_topic@ == old(self).by_topic@.insert(
                    channel.topic@,
                    old(self).streams@.len() as usize,
                )
            } else {
                *final(self) == *old(self)
            },
    {
        let name: String = channel.name();
        if !selects(patterns, name.as_str()) {
            return;
        }
        let index: usize = self.streams.len();
        let i: usize = self.by_topic.ensure(channel.topic.clone(), index);
        let slot: &mut usize = self.by_topic.value_mut(i);
        *slot = index;
        self.streams.push(channel.stream());
        proof {
            let map = old(self).by_topic@.insert(channel.topic@, index);
            assert(self.by_topic@ =~= map);
            assert(self.streams@.drop_last() =~= old(self).streams@);
            assert forall|topic: Seq<char>| self.by_topic@.contains_key(
                topic,
            ) implies #[trigger] self.by_topic@[topic] < self.streams@.len() by {
                if topic != channel.topic@ {
                    assert(old(self).by_topic@[topic] < old(self).streams@.len());
                }
            }
        }
    }

    /// The stream that the messages of a topic belong to.
    pub fn find(&self, topic: &str) -> (r: Option<usize>)
        requires
            self.wf(),
        ensures
            match r {
                Some(stream) => {
                    &&& self.by_topic@.contains_key(topic@)
                    &&& stream == self.by_topic@[topic@]
                    &&& stream < self.streams@.len()
                },
                None => !self.by_topic@.contains_key(topic@),
            },
    {
        match self.by_topic.find(topic) {
            Some(i) => Some(self.by_topic.vals[i]),
            None => None,
        }
    }
}

/// The character in lower case, if it is an ASCII letter.
pub open spec fn lower(c: char) -> char {
    if 'A' <= c <= 'Z' {
        ((c as u32) + 32) as char
    } else {
        c
    }
}

/// Whether a file is an mcap, going by its extension in any case.
pub open spec fn mcap_extension(extension: Seq<char>) -> bool {
    &&& extension.len() == 4
    &&& lower(extension[0]) == 'm'
    &&& lower(extension[1]) == 'c'
    &&& lower(extension[2]) == 'a'
    &&& lower(extension[3]) == 'p'
}

pub fn is_mcap(extension: &str) -> (r: bool)
    ensures
        r == mcap_extension(extension@),
{
    let chars: Vec<char> = chars_of(extension);
    chars.len() == 4 && (chars[0] == 'm' || chars[0] == 'M') && (chars[1] == 'c' || chars[1] == 'C')
        && (chars[2] == 'a' || chars[2] == 'A') && (chars[3] == 'p' || chars[3] == 'P')
}

/// Refuses a `.db` of which no stream was picked.
pub fn some_streams(streams: &Vec<Stream>, path: &str) -> (r: Result<(), SourceError>)
    ensures
        match r {
            Ok(()) => streams@.len() > 0,
            Err(error) => streams@.len() == 0 && (error matches SourceError::NoStreams { path: p }
                && p@ == path@),
        },
{
    if streams.len() == 0 {
        Err(SourceError::NoStreams { path: path.to_owned() })
    } else {
        Ok(())
    }
}

/// Refuses an mcap of which no channel was picked.
pub fn some_channels(streams: &Vec<Stream>, path: &str) -> (r: Result<(), SourceError>)
    ensures
        match r {
            Ok(()) => streams@.len() > 0,
            Err(error) => streams@.len() == 0 && (error matches SourceError::NoChannels { path: p }
                && p@ == path@),
        },
{
    if streams.len() == 0 {
        Err(SourceError::NoChannels { path: path.to_owned() })
    } else {
        Ok(())
    }
}

// ----------------------------------------------------------------- wire bytes
/// A message on its way to the wire.
#[derive(Debug, PartialEq, Eq)]
pub enum Wire {
    /// The wire bytes.
    Bytes(Vec<u8>),
    /// A message that has yet to be encoded.
    Message(Message),
}

/// Why stored bytes have no wire form.
#[derive(Debug, PartialEq, Eq)]
pub enum WireError {
    /// The bytes are not an LZ4 frame, with the decoder's own words.
    Lz4(String),
    /// The bytes are not CDR of the stream's type.
    Cdr { stream: String, error: CdrError },
    /// The stream has no wire form at all.
    Unsupported,
}

impl WireError {
    /// What the error reads like.
    pub open spec fn text(&self) -> Seq<char> {
        match self {
            WireError::Lz4(_) => "lz4 decompression failed"@,
            WireError::Cdr { stream, error } => "failed to transcode "@ + stream@ + " from CDR"@,
            WireError::Unsupported => "stream is not stored in an LCM-compatible codec"@,
        }
    }

    pub fn message(&self) -> (r: String)
        ensures
            r@ == self.text(),
    {
        match self {
            WireError::Lz4(_) => "lz4 decompression failed".to_owned(),
            WireError::Cdr { stream, error } => {
                let mut text: String = "failed to transcode ".to_owned();
                text.append(stream.as_str());
                text.append(" from CDR");
                text
            },
            WireError::Unsupported => {
                "stream is not stored in an LCM-compatible codec".to_owned()
            },
        }
    }
}

/// Turns stored bytes into what goes onto the wire.
pub fn to_wire(stream: &Stream, data: Vec<u8>) -> (r: Result<Wire, WireError>)
    ensures
        match stream.storage {
            Storage::Wire => r == Ok::<Wire, WireError>(Wire::Bytes(data)),
            Storage::Lz4 => match lz4_content(data@) {
                Ok(content) => r matches Ok(Wire::Bytes(bytes)) && bytes@ == content,
                Err(complaint) => r matches Err(WireError::Lz4(why)) && why@ == complaint,
            },
            Storage::Cdr => match r {
                Ok(Wire::Message(message)) => {
                    &&& data@.len() >= 4
                    &&& type_named(stream.msg_name@) == Some(message.message_type())
                    &&& transcoded(message.message_type(), data@) == Some(message.content())
                    &&& stands_in(data@, message)
                    &&& message.unsequenced()
                },
                Err(WireError::Cdr { stream: name, error }) => {
                    &&& name@ == stream.name@
                    &&& if data@.len() < 4 {
                        error is HeaderTooShort
                    } else {
                        match type_named(stream.msg_name@) {
                            Some(message_type) => error is EndedEarly && transcoded(
                                message_type,
                                data@,
                            ) is None,
                            None => error matches CdrError::NoTranscoder(n) && n@
                                == stream.msg_name@,
                        }
                    }
                },
                _ => false,
            },
            Storage::Unsupported => r == Err::<Wire, WireError>(WireError::Unsupported),
        },
{
    match stream.storage {
        Storage::Wire => Ok(Wire::Bytes(data)),
        Storage::Lz4 => match lz4_decode(data.as_slice()) {
            Ok(bytes) => Ok(Wire::Bytes(bytes)),
            Err(why) => Err(WireError::Lz4(why)),
        },
        Storage::Cdr => match to_lcm(stream.msg_name.as_str(), data.as_slice()) {
            Ok(message) => Ok(Wire::Message(message)),
            Err(error) => Err(WireError::Cdr { stream: stream.name.clone(), error }),
        },
        Storage::Unsupported => Err(WireError::Unsupported),
    }
}

// ----------------------------------------------------------------------- laws
/// A codec is stored compressed when its name is `lz4+` and the name of one that is stored as it is, and
/// those are `lcm` and `jpeg`.
pub proof fn law_compressed_codecs_are_named_after_plain_ones(codec_id: Seq<char>)
    ensures
        storage_of("lz4+"@ + codec_id) == Storage::Lz4 <==> storage_of(codec_id) == Storage::Wire,
        storage_of(codec_id) == Storage::Wire <==> codec_id == seq!['l', 'c', 'm'] || codec_id == seq![
            'j',
            'p',
            'e',
            'g',
        ],
        storage_of(codec_id) == Storage::Lz4 ==> "lz4+"@.is_prefix_of(codec_id) && storage_of(
            codec_id.skip(4),
        ) == Storage::Wire,
        storage_of(codec_id) != Storage::Cdr,
{
    reveal_strlit("lcm");
    reveal_strlit("jpeg");
    reveal_strlit("lz4+");
    reveal_strlit("lz4+lcm");
    reveal_strlit("lz4+jpeg");
    let compressed = "lz4+"@ + codec_id;
    assert("lcm"@ =~= seq!['l', 'c', 'm']);
    assert("jpeg"@ =~= seq!['j', 'p', 'e', 'g']);
    assert("lz4+lcm"@ =~= "lz4+"@ + "lcm"@);
    assert("lz4+jpeg"@ =~= "lz4+"@ + "jpeg"@);
    assert(compressed.skip(4) =~= codec_id);
    assert(("lz4+"@ + "lcm"@).skip(4) =~= "lcm"@);
    assert(("lz4+"@ + "jpeg"@).skip(4) =~= "jpeg"@);
    assert("lcm"@.len() == 3 && "jpeg"@.len() == 4 && "lz4+"@.len() == 4);
    assert(compressed.len() == 4 + codec_id.len());
    if compressed == "jpeg"@ {
        assert(compressed[0] == 'l');
    }
    assert("lz4+"@ =~= ("lz4+"@ + "lcm"@).subrange(0, 4));
    assert("lz4+"@ =~= ("lz4+"@ + "jpeg"@).subrange(0, 4));
}

/// A python path names the module that its class is named after, with the leading package or without it.
/// Where the class is not what the module ends in, the path is left as it is.
pub proof fn law_python_paths_name_their_module(module: Seq<char>, class: Seq<char>)
    requires
        !class.contains('.'),
        !"dimos.msgs."@.is_prefix_of(module.push('.') + class),
    ensures
        class.is_suffix_of(module) ==> module_type("dimos.msgs."@ + module.push('.') + class) == module,
        class.is_suffix_of(module) ==> module_type(module.push('.') + class) == module,
        !class.is_suffix_of(module) ==> module_type("dimos.msgs."@ + module.push('.') + class)
            == module.push('.') + class,
        !class.is_suffix_of(module) ==> module_type(module.push('.') + class) == module.push('.')
            + class,
{
    let lead = "dimos.msgs."@;
    let path = module.push('.') + class;
    let whole = lead + module.push('.') + class;
    assert(whole =~= lead + path);
    assert(lead =~= whole.subrange(0, lead.len() as int));
    assert(whole.skip(lead.len() as int) =~= path);
    let i = module.len() as int;
    assert(path[i] == '.');
    assert forall|j: int| i < j < path.len() implies path[j] != '.' by {
        assert(path[j] == class[j - i - 1]);
    }
    lemma_last_index(path, '.', i);
    assert(path.take(i) =~= module);
    assert(path.skip(i + 1) =~= class);
}

/// Timestamps are ordered as the numbers that they are: those with the sign bit before those without it,
/// and among the former the larger bits first.
pub proof fn law_timestamps_are_ordered_by_sign_and_size(a: F64, b: F64)
    ensures
        a.bits >= 0x8000_0000_0000_0000 && b.bits < 0x8000_0000_0000_0000 ==> order_key(a) < order_key(
            b,
        ),
        a.bits < 0x8000_0000_0000_0000 && b.bits < 0x8000_0000_0000_0000 ==> (order_key(a)
            < order_key(b) <==> a.bits < b.bits),
        a.bits >= 0x8000_0000_0000_0000 && b.bits >= 0x8000_0000_0000_0000 ==> (order_key(a)
            < order_key(b) <==> a.bits > b.bits),
        order_key(a) == order_key(b) ==> a == b,
{
}

/// A file is an mcap by its extension when that spells `mcap` in capitals or small letters, in any mix.
pub proof fn law_the_case_of_an_extension_does_not_matter(extension: Seq<char>)
    ensures
        mcap_extension(extension) <==> extension.len() == 4 && forall|i: int|
            0 <= i < 4 ==> #[trigger] extension[i] == seq!['m', 'c', 'a', 'p'][i] || extension[i]
                == seq!['M', 'C', 'A', 'P'][i],
{
    let small = seq!['m', 'c', 'a', 'p'];
    let large = seq!['M', 'C', 'A', 'P'];
    if mcap_extension(extension) {
        assert forall|i: int| 0 <= i < 4 implies #[trigger] extension[i] == small[i] || extension[i]
            == large[i] by {
            assert(i == 0 || i == 1 || i == 2 || i == 3);
        }
    }
    if extension.len() == 4 && forall|i: int|
        0 <= i < 4 ==> #[trigger] extension[i] == small[i] || extension[i] == large[i] {
        assert(extension[0] == small[0] || extension[0] == large[0]);
        assert(extension[1] == small[1] || extension[1] == large[1]);
        assert(extension[2] == small[2] || extension[2] == large[2]);
        assert(extension[3] == small[3] || extension[3] == large[3]);
    }
}

proof fn lemma_doubled_quotes_concat(a: Seq<char>, b: Seq<char>)
    ensures
        doubled_quotes(a + b) == doubled_quotes(a) + doubled_quotes(b),
    decreases b.len(),
{
    if b.len() == 0 {
        assert(a + b =~= a);
        assert(doubled_quotes(a) + doubled_quotes(b) =~= doubled_quotes(a));
    } else {
        assert((a + b).drop_last() =~= a + b.drop_last());
        lemma_doubled_quotes_concat(a, b.drop_last());
        assert(doubled_quotes(a + b) =~= doubled_quotes(a) + doubled_quotes(b));
    }
}

proof fn lemma_nothing_to_double(s: Seq<char>)
    requires
        !s.contains('"'),
    ensures
        doubled_quotes(s) == s,
    decreases s.len(),
{
    if s.len() > 0 {
        assert(s.contains(s.last()));
        assert forall|i: int| 0 <= i < s.drop_last().len() implies s.drop_last()[i] != '"' by {
            assert(s.contains(s[i]));
        }
        lemma_nothing_to_double(s.drop_last());
        assert(s =~= s.drop_last().push(s.last()));
    }
}

/// An identifier stands between quotes as it is, but for the quotes in it, of which each stands twice.
pub proof fn law_quoting_doubles_quotes_only(before: Seq<char>, after: Seq<char>)
    requires
        !before.contains('"'),
    ensures
        quoted(before) == seq!['"'] + before + seq!['"'],
        quoted(before.push('"') + after) == seq!['"'] + before + seq!['"', '"'] + quoted(after).skip(1),
{
    lemma_nothing_to_double(before);
    lemma_doubled_quotes_concat(before.push('"'), after);
    assert(before.push('"').drop_last() =~= before);
    assert(quoted(after).skip(1) =~= doubled_quotes(after) + seq!['"']);
    assert(quoted(before.push('"') + after) =~= seq!['"'] + before + seq!['"', '"'] + quoted(
        after,
    ).skip(1));
}

/// A stream goes by the name that the recorder noted; one of another recorder goes by its topic, without
/// the slash in front.
pub proof fn law_channels_go_by_their_noted_name_or_topic(channel: Listed, topic: Seq<char>)
    ensures
        channel.2.contains_key("dimos.stream_name"@) ==> listed_name(channel)
            == channel.2["dimos.stream_name"@],
        !channel.2.contains_key("dimos.stream_name"@) && channel.0 == seq!['/'] + topic ==> listed_name(
            channel,
        ) == topic,
        !channel.2.contains_key("dimos.stream_name"@) && (channel.0.len() == 0 || channel.0[0] != '/')
            ==> listed_name(channel) == channel.0,
{
    reveal_strlit("/");
    assert("/"@ =~= seq!['/']);
    if channel.0 == seq!['/'] + topic {
        assert(channel.0.subrange(0, 1) =~= "/"@);
        assert(channel.0.skip(1) =~= topic);
    }
    if "/"@.is_prefix_of(channel.0) {
        assert(channel.0[0] == channel.0.subrange(0, 1)[0]);
    }
}

/// A channel under the ROS schema of a supported type holds CDR messages of that type.
pub proof fn law_channels_under_a_known_schema_are_read(channel: Listed, message_type: MessageType)
    requires
        channel.1 == "cdr"@,
        channel.3 == Some(schema_name_of(message_type)),
    ensures
        listed_content(channel) == (message_type.name(), Storage::Cdr),
{
    reveal_strlit("cdr");
    reveal_strlit("lcm");
    assert("cdr"@[0] == 'c' && "lcm"@[0] == 'l');
    law_schema_names_name_their_type(message_type);
    law_types_have_one_name_each(message_type, message_type.name());
}

/// A channel of LCM messages holds those of the python type that the recorder noted.
pub proof fn law_channels_of_lcm_messages_are_read(
    channel: Listed,
    module: Seq<char>,
    class: Seq<char>,
)
    requires
        channel.1 == "lcm"@,
        channel.2.contains_key("dimos.payload_type"@),
        channel.2["dimos.payload_type"@] == "dimos.msgs."@ + module.push('.') + class,
        !class.contains('.'),
        class.is_suffix_of(module),
        !"dimos.msgs."@.is_prefix_of(module.push('.') + class),
    ensures
        listed_content(channel) == (module, Storage::Wire),
{
    law_python_paths_name_their_module(module, class);
}

impl SourceError {
    /// A complaint names the stream or the file that it is about.
    pub proof fn law_complaints_name_the_stream_or_the_file(self)
        ensures
        self matches SourceError::BadConfig { name, why } ==> found(self.text(), name@),
        self matches SourceError::NoStreams { path } ==> found(self.text(), path@),
        self matches SourceError::NoChannels { path } ==> found(self.text(), path@),
        self matches SourceError::Damaged { path } ==> found(self.text(), path@),
    {
        if let SourceError::BadConfig { name, why } = self {
            lemma_found_whole(name@);
            let front = "bad config for "@;
            let back = Seq::empty();
            lemma_found(front, name@, back, name@);
            assert(self.text() =~= front + name@ + back);
        }
        if let SourceError::NoStreams { path } = self {
            lemma_found_whole(path@);
            let front = "no matching streams in "@;
            let back = Seq::empty();
            lemma_found(front, path@, back, path@);
            assert(self.text() =~= front + path@ + back);
        }
        if let SourceError::NoChannels { path } = self {
            lemma_found_whole(path@);
            let front = "no matching channels in "@;
            let back = Seq::empty();
            lemma_found(front, path@, back, path@);
            assert(self.text() =~= front + path@ + back);
        }
        if let SourceError::Damaged { path } = self {
            lemma_found_whole(path@);
            let front = "the summary section of "@;
            let back = " is damaged"@;
            lemma_found(front, path@, back, path@);
            assert(self.text() =~= front + path@ + back);
        }
    }
}

/// A stream starts out under the name that it was recorded as, and its stamps are found by its type.
pub proof fn law_streams_start_out_under_their_own_name(
    stream: Stream,
    name: Seq<char>,
    msg_name: Seq<char>,
    storage: Storage,
    count: u64,
)
    requires
        stream.recorded_as(name, msg_name, storage, count),
    ensures
        stream.name@ == name,
        stream.published@ == stream.name@,
        stream.msg_name@ == msg_name,
        stream.support == support_of(stream.msg_name@),
        stream.storage == storage,
        stream.count == count,
{
}

/// A stream is read from the table of its own name, and its payloads from the table of that name with
/// `_blob` behind it, from before the first row on.
pub proof fn law_reading_starts_at_the_tables_of_the_stream(cursor: Cursor, index: int, stream: Stream)
    requires
        cursor.at_start(index, stream),
        !stream.name@.contains('"'),
    ensures
        cursor.stream == index,
        cursor.table@ == seq!['"'] + stream.name@ + seq!['"'],
        cursor.blob_table@ == seq!['"'] + stream.name@ + seq!['_', 'b', 'l', 'o', 'b', '"'],
        cursor.page@.len() == 0 && !cursor.done,
        cursor.last_ts.bits == 0xfff0_0000_0000_0000,
        forall|ts: F64| ts.bits < 0xfff0_0000_0000_0000 ==> #[trigger] order_key(cursor.last_ts)
            < order_key(ts),
{
    reveal_strlit("_blob");
    let blob = stream.name@ + "_blob"@;
    assert forall|i: int| 0 <= i < blob.len() implies blob[i] != '"' by {
        if i < stream.name@.len() {
            assert(stream.name@.contains(stream.name@[i]));
        }
    }
    lemma_nothing_to_double(stream.name@);
    lemma_nothing_to_double(blob);
    assert(quoted(blob) =~= seq!['"'] + stream.name@ + seq!['_', 'b', 'l', 'o', 'b', '"']);
}

/// Channels in another encoding, and CDR channels under a schema that is not known, are not read.
pub proof fn law_other_channels_are_not_read(channel: Listed)
    ensures
        channel.1 != "lcm"@ && channel.1 != "cdr"@ ==> listed_content(channel).1
            == Storage::Unsupported && listed_content(channel).0.len() == 0,
        channel.1 == "cdr"@ && type_named(schema_type(or_empty(channel.3))) is None ==> listed_content(
            channel,
        ).1 == Storage::Unsupported,
        channel.1 == "cdr"@ ==> listed_content(channel).0 == schema_type(or_empty(channel.3)),
{
    reveal_strlit("cdr");
    reveal_strlit("lcm");
    assert("cdr"@[0] == 'c' && "lcm"@[0] == 'l');
}

} // verus!
