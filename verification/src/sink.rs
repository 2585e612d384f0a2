//! The names that messages are published under on LCM or Zenoh.
//!
//! Both transports carry the LCM payload unchanged; only the name differs. An LCM channel is
//! `topic#msg_name` and a Zenoh key expression `topic/msg_name`.
use crate::source::Stream;
use crate::text::{has_char, strip_prefix, trim_end_char, without_prefix, without_trailing};
use vstd::prelude::*;

verus! {

#[derive(Debug, Clone, Copy, PartialEq, Eq, Structural)]
pub enum Transport {
    Lcm,
    Zenoh,
}

/// What stands between a topic and its message type.
pub open spec fn separator_of(transport: Transport) -> char {
    match transport {
        Transport::Lcm => '#',
        Transport::Zenoh => '/',
    }
}

pub fn separator(transport: Transport) -> (r: char)
    ensures
        r == separator_of(transport),
{
    match transport {
        Transport::Lcm => '#',
        Transport::Zenoh => '/',
    }
}

/// The name that a stream is published under.
pub open spec fn published_name(stream: Stream, prefix: Seq<char>, separator: char) -> Seq<char> {
    let topic = prefix + stream.published@;
    if stream.msg_name@.len() == 0 {
        topic
    } else {
        topic.push(separator) + stream.msg_name@
    }
}

/// Builds the published name; streams with no known message type get no suffix.
pub fn name(stream: &Stream, prefix: &str, separator: char) -> (r: String)
    ensures
        r@ == published_name(*stream, prefix@, separator),
{
    let mut name: String = prefix.to_owned();
    name.append(stream.published.as_str());
    if stream.msg_name.as_str().unicode_len() > 0 {
        name.push(separator);
        name.append(stream.msg_name.as_str());
    }
    name
}

/// The channel or key each stream publishes on.
pub fn names(streams: &[Stream], prefix: &str, separator: char) -> (r: Vec<String>)
    ensures
        r@.len() == streams@.len(),
        forall|i: int|
            0 <= i < streams@.len() ==> (#[trigger] r@[i])@ == published_name(
                streams@[i],
                prefix@,
                separator,
            ),
{
    let mut list: Vec<String> = Vec::new();
    let mut i: usize = 0;
    while i < streams.len()
        invariant
            i <= streams@.len(),
            list@.len() == i,
            forall|j: int|
                0 <= j < i ==> (#[trigger] list@[j])@ == published_name(
                    streams@[j],
                    prefix@,
                    separator,
                ),
        decreases streams@.len() - i,
    {
        list.push(name(&streams[i], prefix, separator));
        i = i + 1;
    }
    list
}

/// Whether a channel is that of a topic, with its message type or without.
pub open spec fn answers(channel: Seq<char>, topic: Seq<char>) -> bool {
    without_prefix(channel, topic) matches Some(rest) && (rest.len() == 0 || rest[0] == '#')
}

/// A watched topic is named the way a person says it, but the publisher appends its message type, so
/// a bare name has to match the family.
pub fn channel_answers(channel: &str, topic: &str) -> (r: bool)
    ensures
        r == answers(channel@, topic@),
{
    match strip_prefix(channel, topic) {
        Some(rest) => rest.unicode_len() == 0 || rest.get_char(0) == '#',
        None => false,
    }
}

/// The key expression that watches a topic.
pub open spec fn watched_key(topic: Seq<char>) -> Seq<char> {
    if topic.contains('*') {
        topic
    } else {
        without_trailing(topic, '/') + "/**"@
    }
}

/// The Zenoh spelling of the same idea: `**` also matches zero chunks, so `fused_odom/**` covers the
/// bare key as well as the typed one.
pub fn key_expr(topic: &str) -> (r: String)
    ensures
        r@ == watched_key(topic@),
{
    if has_char(topic, '*') {
        topic.to_owned()
    } else {
        let mut key: String = trim_end_char(topic, '/').to_owned();
        key.append("/**");
        key
    }
}

/// Whatever is published on LCM under a name answers to that name, typed or not.
pub proof fn law_published_channels_answer_their_topic(stream: Stream, prefix: Seq<char>)
    ensures
        answers(published_name(stream, prefix, '#'), prefix + stream.published@),
{
    let topic = prefix + stream.published@;
    let channel = published_name(stream, prefix, '#');
    assert(topic =~= channel.subrange(0, topic.len() as int));
    assert(channel.skip(topic.len() as int) =~= (if stream.msg_name@.len() == 0 {
        Seq::empty()
    } else {
        seq!['#'] + stream.msg_name@
    }));
}

/// A stream goes out under its topic, and behind that its message type where there is one: after a `#`
/// on LCM, after a `/` on Zenoh.
pub proof fn law_streams_go_out_under_topic_and_type(
    stream: Stream,
    prefix: Seq<char>,
    transport: Transport,
)
    ensures
        ({
            let topic = prefix + stream.published@;
            let name = published_name(stream, prefix, separator_of(transport));
            &&& topic.is_prefix_of(name)
            &&& stream.msg_name@.len() == 0 ==> name == topic
            &&& stream.msg_name@.len() > 0 && transport == Transport::Lcm ==> name == topic + seq!['#']
                + stream.msg_name@
            &&& stream.msg_name@.len() > 0 && transport == Transport::Zenoh ==> name == topic
                + seq!['/'] + stream.msg_name@
        }),
{
    let topic = prefix + stream.published@;
    let name = published_name(stream, prefix, separator_of(transport));
    assert(topic =~= name.subrange(0, topic.len() as int));
}

/// A channel answers a topic when it is the topic, or the topic with a `#` and anything behind it.
pub proof fn law_channels_answer_with_or_without_a_type(channel: Seq<char>, topic: Seq<char>)
    ensures
        answers(channel, topic) <==> channel == topic || topic.push('#').is_prefix_of(channel),
{
    let n = topic.len() as int;
    let typed = topic.push('#');
    if answers(channel, topic) {
        if channel.len() == n {
            assert(channel =~= topic);
        } else {
            assert(channel[n] == channel.skip(n)[0]);
            assert(typed =~= channel.subrange(0, n + 1));
        }
    }
    if channel == topic {
        assert(topic =~= channel.subrange(0, n));
    }
    if typed.is_prefix_of(channel) {
        assert(topic =~= channel.subrange(0, n));
        assert(channel[n] == typed[n]);
        assert(channel.skip(n)[0] == channel[n]);
    }
}

/// A key that already holds a wildcard is watched as it is. Any other is watched with everything below
/// it, however many slashes it ends in.
pub proof fn law_a_topic_is_watched_with_what_is_below_it(topic: Seq<char>)
    ensures
        topic.contains('*') ==> watched_key(topic) == topic,
        !topic.contains('*') ==> watched_key(topic.push('/')) == watched_key(topic),
        !topic.contains('*') && (topic.len() == 0 || topic.last() != '/') ==> watched_key(topic)
            == topic + seq!['/', '*', '*'],
{
    reveal_strlit("/**");
    let slashed = topic.push('/');
    assert(slashed.drop_last() =~= topic);
    if !topic.contains('*') {
        assert forall|i: int| 0 <= i < slashed.len() implies slashed[i] != '*' by {
            if i < topic.len() {
                assert(topic.contains(topic[i]));
            }
        }
        if topic.len() == 0 || topic.last() != '/' {
            assert(watched_key(topic) =~= topic + seq!['/', '*', '*']);
        }
    }
}

/// What is published on Zenoh lies at or below the topic, which is what watching the topic covers.
pub proof fn law_published_keys_lie_below_their_topic(stream: Stream, prefix: Seq<char>)
    requires
        !(prefix + stream.published@).contains('*'),
        (prefix + stream.published@).len() > 0,
        (prefix + stream.published@).last() != '/',
    ensures
        ({
            let topic = prefix + stream.published@;
            let key = published_name(stream, prefix, separator_of(Transport::Zenoh));
            &&& key == topic || topic.push('/').is_prefix_of(key)
            &&& watched_key(topic) == topic.push('/') + seq!['*', '*']
        }),
{
    let topic = prefix + stream.published@;
    let key = published_name(stream, prefix, separator_of(Transport::Zenoh));
    law_a_topic_is_watched_with_what_is_below_it(topic);
    assert(topic + seq!['/', '*', '*'] =~= topic.push('/') + seq!['*', '*']);
    if stream.msg_name@.len() > 0 {
        assert(topic.push('/') =~= key.subrange(0, topic.len() as int + 1));
    }
}

} // verus!
