//! The channels that an mcap file lists in its summary section.
use super::{
    listed_content, listed_count, listed_name, some_channels, Catalog, ChannelInfo, Listed,
    SourceError, Stream,
};
use crate::cdr::layout::word;
use crate::cdr::reader::{word32, word64};
use crate::order::{texts_of, Table};
use crate::outside::string_view;
use crate::pattern::picked;
use vstd::prelude::*;
use vstd::slice::slice_subrange;

verus! {

// ------------------------------------------------------------------- the file
/// What an mcap file starts and ends with.
pub open spec fn magic() -> Seq<u8> {
    seq![0x89u8, 0x4Du8, 0x43u8, 0x41u8, 0x50u8, 0x30u8, 0x0Du8, 0x0Au8]
}

/// The number that the eight bytes at a place spell, least significant first.
pub open spec fn number_at(bytes: Seq<u8>, at: int) -> nat {
    word(bytes.subrange(at, at + 8), true)
}

/// The number that the four bytes at a place spell, least significant first.
pub open spec fn short_at(bytes: Seq<u8>, at: int) -> nat {
    word(bytes.subrange(at, at + 4), true)
}

/// How long a record may claim to be without being there. A length beyond this does not fit the size of
/// everything on every machine.
pub const REACH: u64 = 0xffff_fff6;

/// Whether an attachment that lies between two places has room for its checksum behind its fields. One
/// whose fields do not fit in it is well enough: the reader says so.
pub open spec fn attachment_fits(bytes: Seq<u8>, start: int, end: int) -> bool {
    end - start < 20 || {
        let name = start + 20 + short_at(bytes, start + 16);
        end - name < 4 || {
            let fields = name + 4 + short_at(bytes, name) + 8;
            fields > end || fields + 4 <= end
        }
    }
}

/// Whether the records of a chunk that is not compressed can be read, with `left` bytes of it at a place.
/// Each lies within the chunk, unless the bytes end first.
pub open spec fn chunk_readable(bytes: Seq<u8>, at: int, left: nat, end: int) -> bool
    decreases end - at,
{
    left == 0 || end - at < 9 || {
        let length = number_at(bytes, at + 1);
        let next = at + 9 + length;
        if next > end {
            length <= REACH
        } else {
            &&& 9 + length <= left
            &&& bytes[at] == 9 ==> attachment_fits(bytes, at + 9, next)
            &&& chunk_readable(bytes, next, (left - 9 - length) as nat, end)
        }
    }
}

/// The two ways in which the reader knows a chunk to be compressed.
pub open spec fn is_compression(name: Seq<u8>) -> bool {
    name == seq![0x6Cu8, 0x7Au8, 0x34u8] || name == seq![0x7Au8, 0x73u8, 0x74u8, 0x64u8]
}

/// Whether a chunk of some length whose header starts at a place can be opened: its header ends before it
/// or is cut short, it is not compressed, and its records can be read. A kind of compression that the
/// reader does not know is well enough: it says so.
pub open spec fn chunk_opens(bytes: Seq<u8>, start: int, length: nat, end: int) -> bool {
    end - start < 40 || {
        let name = short_at(bytes, start + 28);
        let size = number_at(bytes, start + 32);
        if start + 40 + name > end {
            40 + name <= REACH
        } else if name > 0 {
            !is_compression(bytes.subrange(start + 32, start + 32 + name))
        } else {
            &&& 40 + size <= length
            &&& start + length <= end || length - 40 - size <= REACH
            &&& chunk_readable(bytes, start + 40, size, end)
        }
    }
}

/// Whether the records between two places can be read, as far as there are any. A record is an opcode,
/// the length of its body, and its body; a footer is the last, and so is one that the bytes end before.
pub open spec fn records_readable(bytes: Seq<u8>, at: int, end: int) -> bool
    decreases end - at,
{
    end - at < 9 || {
        let length = number_at(bytes, at + 1);
        let next = at + 9 + length;
        &&& bytes[at] == 6 ==> chunk_opens(bytes, at + 9, length, end)
        &&& if next > end {
            bytes[at] == 6 || length <= REACH
        } else {
            &&& bytes[at] == 9 ==> attachment_fits(bytes, at + 9, next)
            &&& bytes[at] == 2 || records_readable(bytes, next, end)
        }
    }
}

/// Whether the summary section of a file can be read. A file that is too short, or does not start or
/// end as an mcap does, or has no footer, can be read as far as to say so. In any other the summary that
/// the footer points to, if any, has to lie in the file, with records that can be read; and if there is
/// a checksum of it, it has to start before that.
pub open spec fn readable(bytes: Seq<u8>) -> bool {
    let n = bytes.len() as int;
    n < 45 || bytes.subrange(0, 8) != magic() || bytes.subrange(n - 8, n) != magic() || {
        let length = number_at(bytes, n - 36);
        let summary = number_at(bytes, n - 28);
        let offsets = number_at(bytes, n - 20);
        if bytes[n - 37] != 2 {
            length <= REACH
        } else {
            length < 20 || length > 28 || summary == 0 || {
                &&& summary <= offsets <= n
                &&& short_at(bytes, n - 12) == 0 || summary <= n - 12
                &&& records_readable(bytes, summary as int, offsets as int)
            }
        }
    }
}

fn magic_at(bytes: &[u8], at: usize) -> (r: bool)
    requires
        at + 8 <= bytes.len(),
    ensures
        r == (bytes@.subrange(at as int, at + 8) == magic()),
{
    let r: bool = bytes[at] == 0x89 && bytes[at + 1] == 0x4D && bytes[at + 2] == 0x43 && bytes[at
        + 3] == 0x41 && bytes[at + 4] == 0x50 && bytes[at + 5] == 0x30 && bytes[at + 6] == 0x0D
        && bytes[at + 7] == 0x0A;
    proof {
        let found = bytes@.subrange(at as int, at + 8);
        assert forall|i: int| 0 <= i < 8 implies #[trigger] found[i] == bytes@[at + i] by {}
        if r {
            assert(found =~= magic());
        } else if found == magic() {
            assert(found[0] == 0x89 && found[1] == 0x4D && found[2] == 0x43 && found[3] == 0x41);
            assert(found[4] == 0x50 && found[5] == 0x30 && found[6] == 0x0D && found[7] == 0x0A);
        }
    }
    r
}

fn read_number(bytes: &[u8], at: usize) -> (r: u64)
    requires
        at + 8 <= bytes.len(),
    ensures
        r == number_at(bytes@, at as int),
{
    word64(slice_subrange(bytes, at, at + 8), true)
}

fn read_short(bytes: &[u8], at: usize) -> (r: u32)
    requires
        at + 4 <= bytes.len(),
    ensures
        r == short_at(bytes@, at as int),
{
    word32(slice_subrange(bytes, at, at + 4), true)
}

fn is_attachment_fitting(bytes: &[u8], start: usize, end: usize) -> (r: bool)
    requires
        start <= end <= bytes.len(),
    ensures
        r == attachment_fits(bytes@, start as int, end as int),
{
    if end - start < 20 {
        return true;
    }
    let name: u32 = read_short(bytes, start + 16);
    let left: u64 = (end - start - 20) as u64;
    if left < name as u64 || left - (name as u64) < 4 {
        return true;
    }
    let at: usize = start + 20 + name as usize;
    let media: u32 = read_short(bytes, at);
    let left: u64 = (end - at - 4) as u64;
    if left < media as u64 + 8 {
        return true;
    }
    left - (media as u64 + 8) >= 4
}

fn is_chunk_readable(bytes: &[u8], start: usize, size: u64, end: usize) -> (r: bool)
    requires
        start <= end <= bytes.len(),
    ensures
        r == chunk_readable(bytes@, start as int, size as nat, end as int),
{
    let mut at: usize = start;
    let mut left: u64 = size;
    while left > 0 && end - at >= 9
        invariant
            start <= at <= end <= bytes.len(),
            chunk_readable(bytes@, start as int, size as nat, end as int) == chunk_readable(
                bytes@,
                at as int,
                left as nat,
                end as int,
            ),
        decreases end - at,
    {
        let length: u64 = read_number(bytes, at + 1);
        if length > (end - at - 9) as u64 {
            return length <= REACH;
        }
        if left < 9 || left - 9 < length {
            return false;
        }
        let next: usize = at + 9 + length as usize;
        if bytes[at] == 9 && !is_attachment_fitting(bytes, at + 9, next) {
            return false;
        }
        left = left - 9 - length;
        at = next;
    }
    true
}

/// Whether the reader knows this kind of compression.
fn names_compression(name: &[u8]) -> (r: bool)
    ensures
        r == is_compression(name@),
{
    let lz4: bool = name.len() == 3 && name[0] == 0x6C && name[1] == 0x7A && name[2] == 0x34;
    let zstd: bool = name.len() == 4 && name[0] == 0x7A && name[1] == 0x73 && name[2] == 0x74
        && name[3] == 0x64;
    proof {
        let first = seq![0x6Cu8, 0x7Au8, 0x34u8];
        let second = seq![0x7Au8, 0x73u8, 0x74u8, 0x64u8];
        if lz4 {
            assert(name@ =~= first);
        }
        if zstd {
            assert(name@ =~= second);
        }
        if name@ == first {
            assert(first[0] == 0x6C && first[1] == 0x7A && first[2] == 0x34);
        }
        if name@ == second {
            assert(second[0] == 0x7A && second[1] == 0x73 && second[2] == 0x74 && second[3] == 0x64);
        }
    }
    lz4 || zstd
}

fn is_chunk_opening(bytes: &[u8], start: usize, length: u64, end: usize) -> (r: bool)
    requires
        start <= end <= bytes.len(),
    ensures
        r == chunk_opens(bytes@, start as int, length as nat, end as int),
{
    if end - start < 40 {
        return true;
    }
    let name: u32 = read_short(bytes, start + 28);
    let size: u64 = read_number(bytes, start + 32);
    if name as u64 > (end - start - 40) as u64 {
        return 40 + name as u64 <= REACH;
    }
    if name > 0 {
        return !names_compression(
            slice_subrange(bytes, start + 32, start + 32 + name as usize),
        );
    }
    if length < 40 || length - 40 < size {
        return false;
    }
    if length > (end - start) as u64 && length - 40 - size > REACH {
        return false;
    }
    is_chunk_readable(bytes, start + 40, size, end)
}

fn are_records_readable(bytes: &[u8], start: usize, end: usize) -> (r: bool)
    requires
        start <= end <= bytes.len(),
    ensures
        r == records_readable(bytes@, start as int, end as int),
{
    let mut at: usize = start;
    while end - at >= 9
        invariant
            start <= at <= end <= bytes.len(),
            records_readable(bytes@, start as int, end as int) == records_readable(
                bytes@,
                at as int,
                end as int,
            ),
        decreases end - at,
    {
        let opcode: u8 = bytes[at];
        let length: u64 = read_number(bytes, at + 1);
        if opcode == 6 && !is_chunk_opening(bytes, at + 9, length, end) {
            return false;
        }
        if length > (end - at - 9) as u64 {
            return opcode == 6 || length <= REACH;
        }
        let next: usize = at + 9 + length as usize;
        if opcode == 9 && !is_attachment_fitting(bytes, at + 9, next) {
            return false;
        }
        if opcode == 2 {
            return true;
        }
        at = next;
    }
    true
}

pub fn is_readable(bytes: &[u8]) -> (r: bool)
    ensures
        r == readable(bytes@),
{
    let n: usize = bytes.len();
    if n < 45 || !magic_at(bytes, 0) || !magic_at(bytes, n - 8) {
        return true;
    }
    let length: u64 = read_number(bytes, n - 36);
    if bytes[n - 37] != 2 {
        return length <= REACH;
    }
    let summary: u64 = read_number(bytes, n - 28);
    let offsets: u64 = read_number(bytes, n - 20);
    if length < 20 || length > 28 || summary == 0 {
        return true;
    }
    if summary > offsets || offsets > n as u64 {
        return false;
    }
    if read_short(bytes, n - 12) != 0 && summary > (n - 12) as u64 {
        return false;
    }
    are_records_readable(bytes, summary as usize, offsets as usize)
}

// --------------------------------------------------------------- the channels
/// A channel as the file lists it.
#[derive(Debug)]
pub struct FileChannel {
    pub id: u16,
    pub topic: String,
    pub message_encoding: String,
    pub metadata: Vec<(String, String)>,
    pub schema_name: Option<String>,
}

/// The texts under their names; the last of a name counts.
pub open spec fn entries(pairs: Seq<(String, String)>) -> Map<Seq<char>, Seq<char>>
    decreases pairs.len(),
{
    if pairs.len() == 0 {
        Map::empty()
    } else {
        entries(pairs.drop_last()).insert(pairs.last().0@, pairs.last().1@)
    }
}

/// What an mcap file says of one of its channels, but for how many messages it holds.
pub type Described = (Seq<char>, Seq<char>, Map<Seq<char>, Seq<char>>, Option<Seq<char>>);

impl FileChannel {
    /// What the file says of the channel.
    pub open spec fn described(self) -> Described {
        (
            self.topic@,
            self.message_encoding@,
            entries(self.metadata@),
            string_view(self.schema_name),
        )
    }

    /// What the file says of the channel, along with how many messages the statistics give it.
    pub open spec fn listed(self, counts: Map<u16, u64>) -> Listed {
        with_count(self.described(), counts, self.id)
    }
}

/// What the file says of the channel with an id, along with how many messages the statistics give it.
pub open spec fn with_count(channel: Described, counts: Map<u16, u64>, id: u16) -> Listed {
    (
        channel.0,
        channel.1,
        channel.2,
        channel.3,
        if counts.contains_key(id) {
            Some(counts[id])
        } else {
            None
        },
    )
}

/// Channels along with how many messages the statistics give them.
pub open spec fn with_counts(channels: Map<u16, Described>, counts: Map<u16, u64>) -> Map<
    u16,
    Listed,
> {
    Map::new(
        |id: u16| channels.contains_key(id),
        |id: u16| with_count(channels[id], counts, id),
    )
}

/// Numbers by their ids; the last of an id counts.
pub open spec fn counts_of(pairs: Seq<(u16, u64)>) -> Map<u16, u64>
    decreases pairs.len(),
{
    if pairs.len() == 0 {
        Map::empty()
    } else {
        counts_of(pairs.drop_last()).insert(pairs.last().0, pairs.last().1)
    }
}

/// The counts of a file; one without statistics has none.
pub open spec fn or_none(counts: Option<Map<u16, u64>>) -> Map<u16, u64> {
    match counts {
        Some(counts) => counts,
        None => Map::empty(),
    }
}

/// Channels by their ids; the last of an id counts.
pub open spec fn by_id(list: Seq<FileChannel>) -> Map<u16, Described>
    decreases list.len(),
{
    if list.len() == 0 {
        Map::empty()
    } else {
        by_id(list.drop_last()).insert(list.last().id, list.last().described())
    }
}

/// Whether no two channels of a list have one id.
pub open spec fn ids_differ(list: Seq<FileChannel>) -> bool {
    forall|i: int, j: int|
        0 <= i < j < list.len() ==> (#[trigger] list[i]).id != (#[trigger] list[j]).id
}

/// What the summary section of a file says, if it has that section: the channels by their ids, and how
/// many messages each holds by the statistics, if it has those; or what the reader says of the file.
pub uninterp spec fn mcap_summary(bytes: Seq<u8>) -> Result<
    Option<(Map<u16, Described>, Option<Map<u16, u64>>)>,
    Seq<char>,
>;

/// The channels that were read, and the pairs of an id and a count, if there are statistics.
pub type SummaryRead = (Vec<FileChannel>, Option<Vec<(u16, u64)>>);

/// The view of what was read.
pub open spec fn summary_view(r: Result<Option<SummaryRead>, String>) -> Result<
    Option<(Map<u16, Described>, Option<Map<u16, u64>>)>,
    Seq<char>,
> {
    match r {
        Ok(Some((list, counts))) => Ok(
            Some(
                (
                    by_id(list@),
                    match counts {
                        Some(pairs) => Some(counts_of(pairs@)),
                        None => None,
                    },
                ),
            ),
        ),
        Ok(None) => Ok(None),
        Err(why) => Err(why@),
    }
}

/// Whether no two channels that were read have one id.
pub open spec fn apart(r: Result<Option<SummaryRead>, String>) -> bool {
    r matches Ok(Some((list, _))) ==> ids_differ(list@)
}

/// Reads the summary section of a file with `mcap::Summary::read` and hands out its channels and the
/// message counts of its statistics. By their ids they are the ones named `mcap_summary`, and each
/// channel's id comes once; the order in which they come is left open.
#[verifier::external_body]
fn read_summary(bytes: &[u8]) -> (r: Result<Option<SummaryRead>, String>)
    requires
        readable(bytes@),
    ensures
        summary_view(r) == mcap_summary(bytes@),
        apart(r),
{
    let summary = match mcap::Summary::read(bytes).map_err(|error| error.to_string())? {
        Some(summary) => summary,
        None => return Ok(None),
    };
    let counts = summary.stats.map(|stats| stats.channel_message_counts.into_iter().collect());
    let list = summary.channels.iter().map(|(id, channel)| FileChannel {
        id: *id,
        topic: channel.topic.clone(),
        message_encoding: channel.message_encoding.clone(),
        metadata: channel.metadata.clone().into_iter().collect(),
        schema_name: channel.schema.as_ref().map(|schema| schema.name.clone()),
    });
    Ok(Some((list.collect(), counts)))
}

/// How many messages some pairs give the channel with an id.
fn count_of(pairs: &Vec<(u16, u64)>, id: u16) -> (r: Option<u64>)
    ensures
        match r {
            Some(count) => counts_of(pairs@).contains_key(id) && counts_of(pairs@)[id] == count,
            None => !counts_of(pairs@).contains_key(id),
        },
{
    let mut i: usize = pairs.len();
    assert(pairs@.take(i as int) =~= pairs@);
    while i > 0
        invariant
            i <= pairs@.len(),
            counts_of(pairs@).contains_key(id) == counts_of(pairs@.take(i as int)).contains_key(id),
            counts_of(pairs@)[id] == counts_of(pairs@.take(i as int))[id],
        decreases i,
    {
        i = i - 1;
        assert(pairs@.take(i + 1).drop_last() =~= pairs@.take(i as int));
        if pairs[i].0 == id {
            return Some(pairs[i].1);
        }
    }
    None
}

// ---------------------------------------------------------------- the catalog
/// Whether the stream of a channel is picked.
pub open spec fn is_picked(channel: Listed, patterns: Seq<String>) -> bool {
    picked(patterns, listed_name(channel))
}

/// The channels of a list whose streams are picked, in its order.
pub open spec fn chosen(
    list: Seq<FileChannel>,
    counts: Map<u16, u64>,
    patterns: Seq<String>,
) -> Seq<FileChannel>
    decreases list.len(),
{
    if list.len() == 0 {
        Seq::empty()
    } else {
        let earlier = chosen(list.drop_last(), counts, patterns);
        if is_picked(list.last().listed(counts), patterns) {
            earlier.push(list.last())
        } else {
            earlier
        }
    }
}

/// Where each topic stands among some; the last of a topic counts.
pub open spec fn topic_index(topics: Seq<Seq<char>>) -> Map<Seq<char>, usize>
    decreases topics.len(),
{
    if topics.len() == 0 {
        Map::empty()
    } else {
        topic_index(topics.drop_last()).insert(topics.last(), (topics.len() - 1) as usize)
    }
}

/// Whether a stream is the one that a channel holds.
pub open spec fn holds_stream(channel: Listed, stream: Stream) -> bool {
    stream.recorded_as(
        listed_name(channel),
        listed_content(channel).0,
        listed_content(channel).1,
        listed_count(channel),
    )
}

/// Whether a catalog holds the streams of some channels, in their order.
pub open spec fn catalogs(catalog: Catalog, channels: Seq<Listed>) -> bool {
    &&& catalog.streams@.len() == channels.len()
    &&& forall|i: int|
        0 <= i < channels.len() ==> holds_stream(channels[i], #[trigger] catalog.streams@[i])
    &&& catalog.by_topic@ == topic_index(channels.map_values(|channel: Listed| channel.0))
}

/// What the file says of some channels.
pub open spec fn listings(list: Seq<FileChannel>, counts: Map<u16, u64>) -> Seq<Listed> {
    list.map_values(|channel: FileChannel| channel.listed(counts))
}

fn table_of(pairs: &Vec<(String, String)>) -> (table: Table<String>)
    ensures
        table.wf(),
        texts_of(table) == entries(pairs@),
{
    let mut table: Table<String> = Table::new();
    let mut i: usize = 0;
    assert(pairs@.take(0) =~= Seq::empty());
    assert(texts_of(table) =~= Map::empty());
    while i < pairs.len()
        invariant
            i <= pairs@.len(),
            table.wf(),
            texts_of(table) == entries(pairs@.take(i as int)),
        decreases pairs@.len() - i,
    {
        let ghost before = texts_of(table);
        let at: usize = table.ensure(pairs[i].0.clone(), String::new());
        let slot: &mut String = table.value_mut(at);
        *slot = pairs[i].1.clone();
        assert(pairs@.take(i + 1).drop_last() =~= pairs@.take(i as int));
        assert(texts_of(table) =~= before.insert(pairs@[i as int].0@, pairs@[i as int].1@));
        i = i + 1;
    }
    assert(pairs@.take(i as int) =~= pairs@);
    table
}

fn clone_text(text: &Option<String>) -> (r: Option<String>)
    ensures
        string_view(r) == string_view(*text),
{
    match text {
        Some(text) => Some(text.clone()),
        None => None,
    }
}

fn info_of(channel: &FileChannel, counts: &Vec<(u16, u64)>) -> (r: ChannelInfo)
    ensures
        r.metadata.wf(),
        r.listed() == channel.listed(counts_of(counts@)),
{
    ChannelInfo {
        topic: channel.topic.clone(),
        message_encoding: channel.message_encoding.clone(),
        metadata: table_of(&channel.metadata),
        schema_name: clone_text(&channel.schema_name),
        count: count_of(counts, channel.id),
    }
}

/// The catalog of the picked streams of some channels.
pub fn catalog_of(
    list: &Vec<FileChannel>,
    counts: &Vec<(u16, u64)>,
    patterns: &[String],
    path: &str,
) -> (r: Result<Catalog, SourceError>)
    ensures
        ({
            let channels = chosen(list@, counts_of(counts@), patterns@);
            if channels.len() == 0 {
                r matches Err(SourceError::NoChannels { path: p }) && p@ == path@
            } else {
                r matches Ok(catalog) && catalog.wf() && catalogs(
                    catalog,
                    listings(channels, counts_of(counts@)),
                )
            }
        }),
{
    let mut catalog: Catalog = Catalog::new();
    let ghost numbers = counts_of(counts@);
    let mut i: usize = 0;
    let ghost topic_of = |channel: Listed| channel.0;
    assert(list@.take(0) =~= Seq::empty());
    assert(listings(chosen(list@.take(0), numbers, patterns@), numbers).map_values(topic_of)
        =~= Seq::empty());
    while i < list.len()
        invariant
            i <= list@.len(),
            topic_of == |channel: Listed| channel.0,
            numbers == counts_of(counts@),
            catalog.wf(),
            catalogs(catalog, listings(chosen(list@.take(i as int), numbers, patterns@), numbers)),
        decreases list@.len() - i,
    {
        let ghost before = catalog;
        let ghost earlier = chosen(list@.take(i as int), numbers, patterns@);
        let ghost channel = list@[i as int];
        assert(list@.take(i + 1).drop_last() =~= list@.take(i as int));
        catalog.add(&info_of(&list[i], counts), patterns);
        proof {
            if is_picked(channel.listed(numbers), patterns@) {
                let now = listings(earlier.push(channel), numbers);
                assert(now =~= listings(earlier, numbers).push(channel.listed(numbers)));
                assert(now.map_values(topic_of) =~= listings(earlier, numbers).map_values(topic_of).push(
                    channel.topic@,
                ));
                assert(now.map_values(topic_of).drop_last() =~= listings(earlier, numbers).map_values(
                    topic_of,
                ));
                assert forall|j: int| 0 <= j < now.len() implies holds_stream(
                    now[j],
                    #[trigger] catalog.streams@[j],
                ) by {
                    if j < before.streams@.len() {
                        assert(catalog.streams@.drop_last()[j] == before.streams@[j]);
                        assert(now[j] == listings(earlier, numbers)[j]);
                    }
                }
            }
        }
        i = i + 1;
    }
    assert(list@.take(i as int) =~= list@);
    match some_channels(&catalog.streams, path) {
        Ok(()) => Ok(catalog),
        Err(error) => Err(error),
    }
}

/// Whether ids are those of the picked channels, each once, in some order.
pub open spec fn picks(ids: Seq<u16>, channels: Map<u16, Listed>, patterns: Seq<String>) -> bool {
    &&& ids.no_duplicates()
    &&& forall|id: u16| #[trigger]
        ids.contains(id) <==> channels.contains_key(id) && is_picked(channels[id], patterns)
}

/// Whether a catalog holds the streams of the picked channels, in some order.
pub open spec fn catalogs_picked(
    catalog: Catalog,
    channels: Map<u16, Listed>,
    patterns: Seq<String>,
) -> bool {
    exists|ids: Seq<u16>| #[trigger]
        picks(ids, channels, patterns) && catalogs(
            catalog,
            ids.map_values(|id: u16| channels[id]),
        )
}

proof fn lemma_by_id(list: Seq<FileChannel>)
    requires
        ids_differ(list),
    ensures
        forall|i: int|
            0 <= i < list.len() ==> by_id(list).contains_key((#[trigger] list[i]).id)
                && by_id(list)[list[i].id] == list[i].described(),
        forall|id: u16| #[trigger]
            by_id(list).contains_key(id) ==> exists|i: int|
                0 <= i < list.len() && (#[trigger] list[i]).id == id,
    decreases list.len(),
{
    if list.len() > 0 {
        let rest = list.drop_last();
        lemma_by_id(rest);
        assert forall|i: int| 0 <= i < list.len() implies by_id(list).contains_key(
            (#[trigger] list[i]).id,
        ) && by_id(list)[list[i].id] == list[i].described() by {
            if i < rest.len() {
                assert(rest[i] == list[i]);
                assert(list[i].id != list[list.len() - 1].id);
            }
        }
        assert forall|id: u16| #[trigger] by_id(list).contains_key(id) implies exists|i: int|
            0 <= i < list.len() && (#[trigger] list[i]).id == id by {
            if id == list.last().id {
                assert(list[list.len() - 1].id == id);
            } else {
                assert(by_id(rest).contains_key(id));
                let i = choose|i: int| 0 <= i < rest.len() && (#[trigger] rest[i]).id == id;
                assert(list[i].id == id);
            }
        }
    }
}

proof fn lemma_chosen(list: Seq<FileChannel>, counts: Map<u16, u64>, patterns: Seq<String>)
    ensures
        forall|k: int|
            0 <= k < chosen(list, counts, patterns).len() ==> is_picked(
                (#[trigger] chosen(list, counts, patterns)[k]).listed(counts),
                patterns,
            ) && list.contains(chosen(list, counts, patterns)[k]),
        forall|i: int|
            0 <= i < list.len() && is_picked((#[trigger] list[i]).listed(counts), patterns) ==> chosen(
                list,
                counts,
                patterns,
            ).contains(list[i]),
        ids_differ(list) ==> ids_differ(chosen(list, counts, patterns)),
    decreases list.len(),
{
    if list.len() > 0 {
        let rest = list.drop_last();
        let earlier = chosen(rest, counts, patterns);
        let all = chosen(list, counts, patterns);
        lemma_chosen(rest, counts, patterns);
        assert forall|k: int| 0 <= k < all.len() implies is_picked(
            (#[trigger] all[k]).listed(counts),
            patterns,
        ) && list.contains(all[k]) by {
            if k < earlier.len() {
                assert(all[k] == earlier[k]);
                let i = choose|i: int| 0 <= i < rest.len() && rest[i] == earlier[k];
                assert(list[i] == all[k]);
            } else {
                assert(list[list.len() - 1] == all[k]);
            }
        }
        assert forall|i: int| 0 <= i < list.len() && is_picked(
            (#[trigger] list[i]).listed(counts),
            patterns,
        ) implies all.contains(list[i]) by {
            if i < rest.len() {
                assert(rest[i] == list[i]);
                let k = choose|k: int| 0 <= k < earlier.len() && earlier[k] == rest[i];
                assert(all[k] == list[i]);
            } else {
                assert(all[all.len() - 1] == list[i]);
            }
        }
        if ids_differ(list) {
            assert forall|i: int, j: int| 0 <= i < j < rest.len() implies (#[trigger] rest[i]).id
                != (#[trigger] rest[j]).id by {
                assert(rest[i] == list[i] && rest[j] == list[j]);
            }
            assert forall|a: int, b: int| 0 <= a < b < all.len() implies (#[trigger] all[a]).id
                != (#[trigger] all[b]).id by {
                assert(all[a] == earlier[a]);
                if b < earlier.len() {
                    assert(all[b] == earlier[b]);
                } else {
                    assert(rest.contains(earlier[a]));
                    let i = choose|i: int| 0 <= i < rest.len() && rest[i] == earlier[a];
                    assert(list[i].id != list[list.len() - 1].id);
                }
            }
        }
    }
}

proof fn lemma_chosen_ids(
    list: Seq<FileChannel>,
    counts: Map<u16, u64>,
    patterns: Seq<String>,
) -> (ids: Seq<u16>)
    requires
        ids_differ(list),
    ensures
        picks(ids, with_counts(by_id(list), counts), patterns),
        listings(chosen(list, counts, patterns), counts) == ids.map_values(
            |id: u16| with_counts(by_id(list), counts)[id],
        ),
        ids.len() == chosen(list, counts, patterns).len(),
{
    let all = chosen(list, counts, patterns);
    let ids = all.map_values(|channel: FileChannel| channel.id);
    let channels = with_counts(by_id(list), counts);
    lemma_by_id(list);
    lemma_chosen(list, counts, patterns);
    assert forall|i: int, j: int| 0 <= i < ids.len() && 0 <= j < ids.len() && i != j implies ids[i]
        != ids[j] by {
        if i < j {
            assert(all[i].id != all[j].id);
        } else {
            assert(all[j].id != all[i].id);
        }
    }
    assert forall|id: u16| #[trigger] ids.contains(id) <==> channels.contains_key(id) && is_picked(
        channels[id],
        patterns,
    ) by {
        if ids.contains(id) {
            let k = choose|k: int| 0 <= k < ids.len() && ids[k] == id;
            let i = choose|i: int| 0 <= i < list.len() && list[i] == all[k];
            assert(list[i].id == id);
        }
        if channels.contains_key(id) && is_picked(channels[id], patterns) {
            let i = choose|i: int| 0 <= i < list.len() && (#[trigger] list[i]).id == id;
            let k = choose|k: int| 0 <= k < all.len() && all[k] == list[i];
            assert(ids[k] == id);
        }
    }
    assert forall|k: int| 0 <= k < all.len() implies #[trigger] listings(all, counts)[k]
        == ids.map_values(|id: u16| channels[id])[k] by {
        assert(list.contains(all[k]));
        let i = choose|i: int| 0 <= i < list.len() && list[i] == all[k];
        assert(channels[list[i].id] == list[i].listed(counts));
    }
    assert(listings(all, counts) =~= ids.map_values(|id: u16| channels[id]));
    ids
}

/// The catalog of the picked streams of an mcap file, given as its bytes. `path` is what the file is
/// called in an error.
pub fn open_catalog(bytes: &[u8], patterns: &[String], path: &str) -> (r: Result<
    Catalog,
    SourceError,
>)
    ensures
        if !readable(bytes@) {
            r matches Err(SourceError::Damaged { path: p }) && p@ == path@
        } else {
            match mcap_summary(bytes@) {
                Err(complaint) => r matches Err(SourceError::NoMcap { why }) && why@ == complaint,
                Ok(None) => r matches Err(SourceError::NoSummary),
                Ok(Some((described, counts))) => {
                    let channels = with_counts(described, or_none(counts));
                    if exists|id: u16| #[trigger]
                        channels.contains_key(id) && is_picked(channels[id], patterns@) {
                        r matches Ok(catalog) && catalog.wf() && catalogs_picked(
                            catalog,
                            channels,
                            patterns@,
                        )
                    } else {
                        r matches Err(SourceError::NoChannels { path: p }) && p@ == path@
                    }
                },
            }
        },
{
    if !is_readable(bytes) {
        return Err(SourceError::Damaged { path: path.to_owned() });
    }
    match read_summary(bytes) {
        Err(why) => Err(SourceError::NoMcap { why }),
        Ok(None) => Err(SourceError::NoSummary),
        Ok(Some((list, counts))) => {
            let counts: Vec<(u16, u64)> = match counts {
                Some(pairs) => pairs,
                None => Vec::new(),
            };
            proof {
                let channels = with_counts(by_id(list@), counts_of(counts@));
                let ids = lemma_chosen_ids(list@, counts_of(counts@), patterns@);
                if chosen(list@, counts_of(counts@), patterns@).len() > 0 {
                    assert(ids.contains(ids[0]));
                    assert(channels.contains_key(ids[0]) && is_picked(channels[ids[0]], patterns@));
                } else {
                    assert forall|id: u16| #[trigger] channels.contains_key(id) implies !is_picked(
                        channels[id],
                        patterns@,
                    ) by {
                        assert(!ids.contains(id));
                    }
                }
            }
            catalog_of(&list, &counts, patterns, path)
        },
    }
}

// ----------------------------------------------------------------------- laws
/// Whether the bytes at a place are those that an mcap file starts and ends with.
pub open spec fn marked(bytes: Seq<u8>, at: int) -> bool {
    &&& bytes[at] == 137
    &&& bytes[at + 1] == 77
    &&& bytes[at + 2] == 67
    &&& bytes[at + 3] == 65
    &&& bytes[at + 4] == 80
    &&& bytes[at + 5] == 48
    &&& bytes[at + 6] == 13
    &&& bytes[at + 7] == 10
}

proof fn lemma_marked(bytes: Seq<u8>, at: int)
    requires
        0 <= at,
        at + 8 <= bytes.len(),
    ensures
        bytes.subrange(at, at + 8) == magic() <==> marked(bytes, at),
{
    let here = bytes.subrange(at, at + 8);
    assert(here[0] == bytes[at] && here[1] == bytes[at + 1] && here[2] == bytes[at + 2] && here[3]
        == bytes[at + 3]);
    assert(here[4] == bytes[at + 4] && here[5] == bytes[at + 5] && here[6] == bytes[at + 6] && here[7]
        == bytes[at + 7]);
    let m = magic();
    assert(m[0] == 137 && m[1] == 77 && m[2] == 67 && m[3] == 65);
    assert(m[4] == 80 && m[5] == 48 && m[6] == 13 && m[7] == 10);
    if marked(bytes, at) {
        assert(here =~= m);
    }
}

/// Whether whole records lie side by side between two places: an opcode, the length of a body in eight
/// bytes, and the body. Chunks and attachments, which hold more than that, are not meant.
pub open spec fn whole_records(bytes: Seq<u8>, at: int, end: int) -> bool
    decreases end - at,
{
    at == end || {
        let next = at + 9 + number_at(bytes, at + 1);
        &&& end - at >= 9
        &&& next <= end
        &&& bytes[at] != 6
        &&& bytes[at] != 9
        &&& whole_records(bytes, next, end)
    }
}

proof fn lemma_whole_records(bytes: Seq<u8>, at: int, end: int)
    requires
        whole_records(bytes, at, end),
    ensures
        records_readable(bytes, at, end),
    decreases end - at,
{
    if at != end {
        lemma_whole_records(bytes, at + 9 + number_at(bytes, at + 1), end);
    }
}

/// A file is read when its summary, from where the footer says that it starts to where it says that the
/// offsets do, is made of whole records and has no checksum. One that is no mcap, or whose footer points
/// to no summary, is read as far as to say so.
pub proof fn law_files_with_a_whole_summary_are_read(bytes: Seq<u8>)
    requires
        bytes.len() >= 45,
    ensures
        ({
            let n = bytes.len() as int;
            let summary = number_at(bytes, n - 28);
            let offsets = number_at(bytes, n - 20);
            &&& !marked(bytes, 0) || !marked(bytes, n - 8) ==> readable(bytes)
            &&& bytes[n - 37] == 2 && summary == 0 ==> readable(bytes)
            &&& bytes[n - 37] == 2 && summary <= offsets <= n && short_at(bytes, n - 12) == 0
                && whole_records(bytes, summary as int, offsets as int) ==> readable(bytes)
            &&& marked(bytes, 0) && marked(bytes, n - 8) && bytes[n - 37] == 2 && number_at(
                bytes,
                n - 36,
            ) == 20 && summary != 0 && (summary > offsets || offsets > n) ==> !readable(bytes)
        }),
{
    let n = bytes.len() as int;
    lemma_marked(bytes, 0);
    lemma_marked(bytes, n - 8);
    let summary = number_at(bytes, n - 28) as int;
    let offsets = number_at(bytes, n - 20) as int;
    if whole_records(bytes, summary, offsets) {
        lemma_whole_records(bytes, summary, offsets);
    }
}

/// Of several counts for one channel the last one counts.
pub proof fn law_the_last_count_of_a_channel_counts(pairs: Seq<(u16, u64)>, i: int)
    requires
        0 <= i < pairs.len(),
        forall|j: int| i < j < pairs.len() ==> (#[trigger] pairs[j]).0 != pairs[i].0,
    ensures
        counts_of(pairs).contains_key(pairs[i].0),
        counts_of(pairs)[pairs[i].0] == pairs[i].1,
    decreases pairs.len(),
{
    let rest = pairs.drop_last();
    if i < pairs.len() - 1 {
        assert(pairs.last() == pairs[pairs.len() - 1]);
        assert(rest[i] == pairs[i]);
        assert forall|j: int| i < j < rest.len() implies (#[trigger] rest[j]).0 != rest[i].0 by {
            assert(rest[j] == pairs[j]);
        }
        law_the_last_count_of_a_channel_counts(rest, i);
    }
}

/// Of several entries under one name the last one counts.
pub proof fn law_the_last_entry_of_a_name_counts(pairs: Seq<(String, String)>, i: int)
    requires
        0 <= i < pairs.len(),
        forall|j: int| i < j < pairs.len() ==> (#[trigger] pairs[j]).0@ != pairs[i].0@,
    ensures
        entries(pairs).contains_key(pairs[i].0@),
        entries(pairs)[pairs[i].0@] == pairs[i].1@,
    decreases pairs.len(),
{
    let rest = pairs.drop_last();
    if i < pairs.len() - 1 {
        assert(pairs.last() == pairs[pairs.len() - 1]);
        assert(rest[i] == pairs[i]);
        assert forall|j: int| i < j < rest.len() implies (#[trigger] rest[j]).0@ != rest[i].0@ by {
            assert(rest[j] == pairs[j]);
        }
        law_the_last_entry_of_a_name_counts(rest, i);
    }
}

/// A topic leads to the last of the channels that have it.
pub proof fn law_a_topic_leads_to_its_last_channel(topics: Seq<Seq<char>>, i: int)
    requires
        0 <= i < topics.len() <= usize::MAX,
        forall|j: int| i < j < topics.len() ==> #[trigger] topics[j] != topics[i],
    ensures
        topic_index(topics).contains_key(topics[i]),
        topic_index(topics)[topics[i]] == i,
    decreases topics.len(),
{
    let rest = topics.drop_last();
    if i < topics.len() - 1 {
        assert(topics.last() == topics[topics.len() - 1]);
        assert(rest[i] == topics[i]);
        assert forall|j: int| i < j < rest.len() implies #[trigger] rest[j] != rest[i] by {
            assert(rest[j] == topics[j]);
        }
        law_a_topic_leads_to_its_last_channel(rest, i);
    }
}

/// The channels that are catalogued are those of the list whose streams are picked, in the order of the
/// list.
pub proof fn law_picked_channels_are_catalogued(
    list: Seq<FileChannel>,
    counts: Map<u16, u64>,
    patterns: Seq<String>,
)
    ensures
        chosen(list, counts, patterns) == list.filter(
            |channel: FileChannel| picked(patterns, listed_name(channel.listed(counts))),
        ),
    decreases list.len(),
{
    reveal(Seq::filter);
    if list.len() > 0 {
        law_picked_channels_are_catalogued(list.drop_last(), counts, patterns);
    }
}

/// What the statistics say of a channel goes with it; without them nothing is known of its messages.
pub proof fn law_channels_keep_their_count(
    channel: FileChannel,
    counts: Map<u16, u64>,
)
    ensures
        counts.contains_key(channel.id) ==> listed_count(channel.listed(counts))
            == counts[channel.id],
        !counts.contains_key(channel.id) ==> listed_count(channel.listed(counts)) == 0,
        channel.listed(counts).0 == channel.topic@,
        channel.listed(counts).1 == channel.message_encoding@,
{
}

/// The streams of a catalog are those of its channels, one for each and in their order, and the topic of
/// a channel leads to its stream, unless a later channel has the same topic.
pub proof fn law_topics_lead_to_the_streams_of_their_channels(
    catalog: Catalog,
    channels: Seq<Listed>,
    i: int,
)
    requires
        catalogs(catalog, channels),
        0 <= i < channels.len() <= usize::MAX,
        forall|j: int| i < j < channels.len() ==> (#[trigger] channels[j]).0 != channels[i].0,
    ensures
        catalog.streams@.len() == channels.len(),
        catalog.by_topic@.contains_key(channels[i].0),
        catalog.by_topic@[channels[i].0] == i,
        catalog.streams@[i].name@ == listed_name(channels[i]),
        catalog.streams@[i].msg_name@ == listed_content(channels[i]).0,
        catalog.streams@[i].storage == listed_content(channels[i]).1,
        catalog.streams@[i].count == listed_count(channels[i]),
{
    let topics = channels.map_values(|channel: Listed| channel.0);
    assert(topics[i] == channels[i].0);
    assert forall|j: int| i < j < topics.len() implies #[trigger] topics[j] != topics[i] by {
        assert(topics[j] == channels[j].0);
    }
    law_a_topic_leads_to_its_last_channel(topics, i);
    assert(holds_stream(channels[i], catalog.streams@[i]));
}

} // verus!
