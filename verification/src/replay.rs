//! Deciding what is replayed, under which name, and with which stamps.
use crate::lockstep::{first_named, none_named, position};
use crate::sink::{name, published_name};
use crate::source::{Storage, Stream};
use crate::stamp::{Retimer, Support};
use crate::text::{
    decimal, found, lemma_first_index, lemma_found, lemma_found_whole, push_decimal, split_first,
    split_once,
};
use vstd::prelude::*;

verus! {

/// How recorded timestamps inside each payload are rewritten.
#[derive(Debug, Clone, Copy, PartialEq, Eq, Structural)]
pub enum Stamps {
    /// Rewrite stamps so they track emission: at twice the rate their spacing halves.
    Scaled,
    /// Move stamps to the present but keep their recorded spacing.
    Shifted,
    /// Leave recorded stamps untouched.
    Original,
}

// -------------------------------------------------------------------- renaming
/// Why a renaming was refused.
#[derive(Debug, PartialEq, Eq)]
pub enum RenameError {
    /// The argument is not `OLD:NEW`.
    NoColon(String),
    /// The new name is empty.
    EmptyName(String),
    /// No stream goes by the old name.
    NoStream { argument: String, old_name: String },
}

impl RenameError {
    /// What the error reads like.
    pub open spec fn text(&self) -> Seq<char> {
        match self {
            RenameError::NoColon(argument) =>
                "--rename wants OLD:NEW, for example wheel_odometry:source_odometry, not "@
                + argument@,
            RenameError::EmptyName(argument) => "--rename "@ + argument@ + " leaves an empty name"@,
            RenameError::NoStream { argument, old_name } => "--rename "@ + argument@
                + ": no stream named "@ + old_name@ + " is being replayed"@,
        }
    }

    pub fn message(&self) -> (r: String)
        ensures
            r@ == self.text(),
    {
        match self {
            RenameError::NoColon(argument) => {
                let mut text: String =
                    "--rename wants OLD:NEW, for example wheel_odometry:source_odometry, not ".to_owned();
                text.append(argument.as_str());
                text
            },
            RenameError::EmptyName(argument) => {
                let mut text: String = "--rename ".to_owned();
                text.append(argument.as_str());
                text.append(" leaves an empty name");
                text
            },
            RenameError::NoStream { argument, old_name } => {
                let mut text: String = "--rename ".to_owned();
                text.append(argument.as_str());
                text.append(": no stream named ");
                text.append(old_name.as_str());
                text.append(" is being replayed");
                text
            },
        }
    }
}

/// Whether an argument renames a stream, going by the names as they were recorded.
pub open spec fn renames(argument: Seq<char>, streams: Seq<Stream>) -> bool {
    split_first(argument, ':') matches Some((old_name, new_name)) && new_name.len() > 0
        && !none_named(streams, old_name)
}

/// Whether an argument is about a stream: the first one that was recorded under the old name.
pub open spec fn is_about(argument: Seq<char>, streams: Seq<Stream>, i: int) -> bool {
    split_first(argument, ':') matches Some((old_name, new_name)) && first_named(
        streams,
        old_name,
        i,
    )
}

/// The name that an argument gives.
pub open spec fn new_name_of(argument: Seq<char>) -> Seq<char> {
    match split_first(argument, ':') {
        Some((_, new_name)) => new_name,
        None => Seq::empty(),
    }
}

/// The name that a stream is published under after some renaming; the last argument about it counts.
pub open spec fn published_after(streams: Seq<Stream>, arguments: Seq<String>, i: int) -> Seq<char>
    decreases arguments.len(),
{
    if arguments.len() == 0 {
        streams[i].published@
    } else if is_about(arguments.last()@, streams, i) {
        new_name_of(arguments.last()@)
    } else {
        published_after(streams, arguments.drop_last(), i)
    }
}

/// Whether a stream differs from another by nothing but the name it is published under.
pub open spec fn same_but_published(a: Stream, b: Stream) -> bool {
    &&& a.name == b.name
    &&& a.msg_name == b.msg_name
    &&& a.storage == b.storage
    &&& a.support == b.support
    &&& a.count == b.count
}

/// Applies `OLD:NEW` arguments to the names streams are published under.
///
/// Each argument is matched against the *recorded* name, so renames never chain and their order does
/// not matter. Several may share one NEW: two streams pointing at one channel is not a conflict.
pub fn rename(streams: &mut Vec<Stream>, arguments: &[String]) -> (r: Result<(), RenameError>)
    ensures
        final(streams)@.len() == old(streams)@.len(),
        forall|i: int|
            0 <= i < old(streams)@.len() ==> same_but_published(
                #[trigger] final(streams)@[i],
                old(streams)@[i],
            ),
        match r {
            Ok(()) => {
                &&& forall|k: int|
                    0 <= k < arguments@.len() ==> renames(
                        (#[trigger] arguments@[k])@,
                        old(streams)@,
                    )
                &&& forall|i: int|
                    0 <= i < old(streams)@.len() ==> (#[trigger] final(streams)@[i]).published@
                        == published_after(old(streams)@, arguments@, i)
            },
            Err(error) => exists|k: int|
                {
                    &&& 0 <= k < arguments@.len()
                    &&& !renames((#[trigger] arguments@[k])@, old(streams)@)
                    &&& forall|j: int|
                        0 <= j < k ==> renames((#[trigger] arguments@[j])@, old(streams)@)
                    &&& match split_first(arguments@[k]@, ':') {
                        None => error == RenameError::NoColon(arguments@[k]),
                        Some((old_name, new_name)) => if new_name.len() == 0 {
                            error == RenameError::EmptyName(arguments@[k])
                        } else {
                            error matches RenameError::NoStream { argument, old_name: name }
                                && argument == arguments@[k] && name@ == old_name
                        },
                    }
                },
        },
{
    let ghost before = streams@;
    let mut k: usize = 0;
    assert(arguments@.take(0) =~= Seq::empty());
    while k < arguments.len()
        invariant
            k <= arguments@.len(),
            before == old(streams)@,
            streams@.len() == before.len(),
            forall|i: int|
                0 <= i < before.len() ==> same_but_published(#[trigger] streams@[i], before[i]),
            forall|j: int| 0 <= j < k ==> renames((#[trigger] arguments@[j])@, before),
            forall|i: int|
                0 <= i < before.len() ==> (#[trigger] streams@[i]).published@ == published_after(
                    before,
                    arguments@.take(k as int),
                    i,
                ),
        decreases arguments@.len() - k,
    {
        let argument: &String = &arguments[k];
        assert(arguments@.take(k + 1).drop_last() =~= arguments@.take(k as int));
        assert(arguments@.take(k + 1).last() == *argument);
        match split_once(argument.as_str(), ':') {
            None => {
                let error: RenameError = RenameError::NoColon(argument.clone());
                assert(!renames(arguments@[k as int]@, before));
                return Err(error);
            },
            Some((old_name, new_name)) => {
                if new_name.unicode_len() == 0 {
                    let error: RenameError = RenameError::EmptyName(argument.clone());
                    assert(!renames(arguments@[k as int]@, before));
                    return Err(error);
                }
                match position(streams.as_slice(), old_name) {
                    None => {
                        let error: RenameError = RenameError::NoStream {
                            argument: argument.clone(),
                            old_name: old_name.to_owned(),
                        };
                        proof {
                            assert forall|j: int| 0 <= j < before.len() implies (
                            #[trigger] before[j]).name@ != old_name@ by {
                                assert(same_but_published(streams@[j], before[j]));
                            }
                            assert(none_named(before, old_name@));
                        }
                        assert(!renames(arguments@[k as int]@, before));
                        return Err(error);
                    },
                    Some(at) => {
                        let ghost held = streams@;
                        proof {
                            assert(same_but_published(held[at as int], before[at as int]));
                            assert forall|j: int| 0 <= j < at implies (
                            #[trigger] before[j]).name@ != old_name@ by {
                                assert(same_but_published(held[j], before[j]));
                            }
                            assert(first_named(before, old_name@, at as int));
                            assert(before[at as int].name@ == old_name@);
                            assert(!none_named(before, old_name@));
                            assert forall|i: int| 0 <= i < before.len() && i != at implies !first_named(
                                before,
                                old_name@,
                                i,
                            ) by {
                                if first_named(before, old_name@, i) {
                                    if i < at {
                                        assert(before[i].name@ != old_name@);
                                    } else {
                                        assert(before[at as int].name@ != old_name@);
                                    }
                                }
                            }
                        }
                        streams[at].published = new_name.to_owned();
                        assert forall|i: int| 0 <= i < before.len() implies (
                        #[trigger] streams@[i]).published@ == published_after(
                            before,
                            arguments@.take(k + 1),
                            i,
                        ) && same_but_published(streams@[i], before[i]) by {
                            assert(same_but_published(held[i], before[i]));
                            if i == at {
                                assert(is_about(argument@, before, i));
                            } else {
                                assert(streams@[i] == held[i]);
                                assert(!is_about(argument@, before, i));
                            }
                        }
                    },
                }
            },
        }
        k = k + 1;
    }
    assert(arguments@.take(k as int) =~= arguments@);
    Ok(())
}

/// Whether two lists hold the same streams, whatever names those are published under.
pub open spec fn same_streams(a: Seq<Stream>, b: Seq<Stream>) -> bool {
    &&& a.len() == b.len()
    &&& forall|i: int| 0 <= i < a.len() ==> (#[trigger] a[i]).name@ == b[i].name@
}

proof fn lemma_names_decide(a: Seq<Stream>, b: Seq<Stream>, argument: Seq<char>, i: int)
    requires
        same_streams(a, b),
    ensures
        is_about(argument, a, i) == is_about(argument, b, i),
        renames(argument, a) == renames(argument, b),
{
    if let Some((old_name, new_name)) = split_first(argument, ':') {
        if first_named(a, old_name, i) {
            assert forall|j: int| 0 <= j < i implies (#[trigger] b[j]).name@ != old_name by {
                assert(a[j].name@ == b[j].name@);
            }
        }
        if first_named(b, old_name, i) {
            assert forall|j: int| 0 <= j < i implies (#[trigger] a[j]).name@ != old_name by {
                assert(a[j].name@ == b[j].name@);
            }
        }
        if none_named(a, old_name) {
            assert forall|j: int| 0 <= j < b.len() implies (#[trigger] b[j]).name@ != old_name by {
                assert(a[j].name@ == b[j].name@);
            }
        }
        if none_named(b, old_name) {
            assert forall|j: int| 0 <= j < a.len() implies (#[trigger] a[j]).name@ != old_name by {
                assert(a[j].name@ == b[j].name@);
            }
        }
    }
}

/// Renames never chain: what a stream is renamed to does not depend on the names that streams were
/// published under before.
pub proof fn law_renames_do_not_chain(
    a: Seq<Stream>,
    b: Seq<Stream>,
    arguments: Seq<String>,
    i: int,
    k: int,
)
    requires
        same_streams(a, b),
        0 <= k < arguments.len(),
        is_about(arguments[k]@, a, i),
    ensures
        published_after(a, arguments, i) == published_after(b, arguments, i),
    decreases arguments.len(),
{
    lemma_names_decide(a, b, arguments.last()@, i);
    if !is_about(arguments.last()@, a, i) {
        assert(arguments.drop_last()[k] == arguments[k]);
        law_renames_do_not_chain(a, b, arguments.drop_last(), i, k);
    }
}

/// The name that an argument is about.
pub open spec fn old_name_of(argument: Seq<char>) -> Option<Seq<char>> {
    match split_first(argument, ':') {
        Some((old_name, _)) => Some(old_name),
        None => None,
    }
}

/// Whether no two arguments give one stream different names.
pub open spec fn agree(arguments: Seq<String>) -> bool {
    forall|j: int, k: int|
        0 <= j < arguments.len() && 0 <= k < arguments.len() && old_name_of(
            (#[trigger] arguments[j])@,
        ) is Some && old_name_of(arguments[j]@) == old_name_of((#[trigger] arguments[k])@)
            ==> arguments[j]@ == arguments[k]@
}

/// Whether every argument of one list is also in another.
pub open spec fn all_in(arguments: Seq<String>, others: Seq<String>) -> bool {
    forall|k: int|
        0 <= k < arguments.len() ==> exists|j: int|
            0 <= j < others.len() && (#[trigger] others[j])@ == (#[trigger] arguments[k])@
}

/// The name that a stream ends up with is one that an argument about it gives, or else its old one.
proof fn lemma_published_after(streams: Seq<Stream>, arguments: Seq<String>, i: int) -> (k: int)
    ensures
        0 <= k < arguments.len() ==> is_about(arguments[k]@, streams, i) && published_after(
            streams,
            arguments,
            i,
        ) == new_name_of(arguments[k]@),
        !(0 <= k < arguments.len()) ==> published_after(streams, arguments, i)
            == streams[i].published@ && forall|j: int|
            0 <= j < arguments.len() ==> !is_about((#[trigger] arguments[j])@, streams, i),
    decreases arguments.len(),
{
    if arguments.len() == 0 {
        -1
    } else if is_about(arguments.last()@, streams, i) {
        arguments.len() - 1
    } else {
        let rest = arguments.drop_last();
        let k = lemma_published_after(streams, rest, i);
        if 0 <= k < rest.len() {
            assert(rest[k] == arguments[k]);
            k
        } else {
            assert forall|j: int| 0 <= j < arguments.len() implies !is_about(
                (#[trigger] arguments[j])@,
                streams,
                i,
            ) by {
                if j < rest.len() {
                    assert(rest[j] == arguments[j]);
                }
            }
            -1
        }
    }
}

/// The order of the arguments does not matter, nor how often each is given, as long as no two of them
/// give one stream different names.
pub proof fn law_the_order_of_renames_does_not_matter(
    streams: Seq<Stream>,
    arguments: Seq<String>,
    others: Seq<String>,
    i: int,
)
    requires
        0 <= i < streams.len(),
        all_in(arguments, others),
        all_in(others, arguments),
        agree(arguments),
    ensures
        published_after(streams, arguments, i) == published_after(streams, others, i),
{
    let k = lemma_published_after(streams, arguments, i);
    let m = lemma_published_after(streams, others, i);
    if 0 <= k < arguments.len() {
        let j = choose|j: int|
            0 <= j < others.len() && (#[trigger] others[j])@ == arguments[k]@;
        assert(is_about(others[j]@, streams, i));
    }
    if 0 <= m < others.len() {
        let j = choose|j: int|
            0 <= j < arguments.len() && (#[trigger] arguments[j])@ == others[m]@;
        assert(is_about(arguments[j]@, streams, i));
        assert(old_name_of(arguments[j]@) == Some(streams[i].name@));
        assert(old_name_of(arguments[k]@) == Some(streams[i].name@));
    }
}

// -------------------------------------------------------------------- speaking
/// What is said of a stream before it is replayed, if anything is.
pub open spec fn warning_about(stream: Stream, stamps: Stamps) -> Option<Seq<char>> {
    if stream.storage == Storage::Unsupported {
        Some(
            "warning: skipping "@ + stream.name@ + " — "@ + (if stream.msg_name@.len() == 0 {
                "its codec"@
            } else {
                stream.msg_name@
            }) + " has no LCM wire form"@,
        )
    } else if stream.support == Support::Unstamped && stamps != Stamps::Original {
        Some(
            "warning: "@ + stream.name@ + " has no known timestamp field ("@ + (
            if stream.msg_name@.len() == 0 {
                "unknown type"@
            } else {
                stream.msg_name@
            }) + "); payloads replay unmodified"@,
        )
    } else {
        None
    }
}

pub fn stream_warning(stream: &Stream, stamps: Stamps) -> (r: Option<String>)
    ensures
        crate::outside::string_view(r) == warning_about(*stream, stamps),
{
    let known: bool = stream.msg_name.as_str().unicode_len() > 0;
    if stream.storage == Storage::Unsupported {
        let mut text: String = "warning: skipping ".to_owned();
        text.append(stream.name.as_str());
        text.append(" — ");
        if known {
            text.append(stream.msg_name.as_str());
        } else {
            text.append("its codec");
        }
        text.append(" has no LCM wire form");
        Some(text)
    } else if stream.support == Support::Unstamped && stamps != Stamps::Original {
        let mut text: String = "warning: ".to_owned();
        text.append(stream.name.as_str());
        text.append(" has no known timestamp field (");
        if known {
            text.append(stream.msg_name.as_str());
        } else {
            text.append("unknown type");
        }
        text.append("); payloads replay unmodified");
        Some(text)
    } else {
        None
    }
}

/// So many spaces.
pub open spec fn spaces(n: int) -> Seq<char> {
    if n > 0 {
        Seq::new(n as nat, |i: int| ' ')
    } else {
        Seq::empty()
    }
}

fn push_spaces(out: &mut String, n: usize)
    ensures
        final(out)@ == old(out)@ + spaces(n as int),
{
    let mut i: usize = 0;
    assert(out@ =~= old(out)@ + spaces(0));
    while i < n
        invariant
            i <= n,
            out@ == old(out)@ + spaces(i as int),
        decreases n - i,
    {
        out.push(' ');
        assert(out@ =~= old(out)@ + spaces(i + 1));
        i = i + 1;
    }
}

/// Adds text, and spaces behind it up to a width.
fn push_padded(out: &mut String, text: &str, width: usize)
    ensures
        final(out)@ == old(out)@ + text@ + spaces(width - text@.len()),
{
    out.append(text);
    let len: usize = text.unicode_len();
    if len < width {
        push_spaces(out, width - len);
    }
    assert(out@ =~= old(out)@ + text@ + spaces(width - text@.len()));
}

/// The line on a stream in a listing: its name, how many messages it holds, their type, and the name
/// it is published under.
pub open spec fn listing(stream: Stream, prefix: Seq<char>, separator: char) -> Seq<char> {
    let count = decimal(stream.count as nat);
    stream.name@ + spaces(32 - stream.name@.len()) + " "@ + spaces(9 - count.len()) + count + "  "@
        + stream.msg_name@ + spaces(28 - stream.msg_name@.len()) + " "@ + published_name(
        stream,
        prefix,
        separator,
    )
}

pub fn list_line(stream: &Stream, prefix: &str, separator: char) -> (r: String)
    ensures
        r@ == listing(*stream, prefix@, separator),
{
    let mut count: String = String::new();
    push_decimal(&mut count, stream.count);
    assert(count@ =~= decimal(stream.count as nat));
    let mut line: String = String::new();
    push_padded(&mut line, stream.name.as_str(), 32);
    line.append(" ");
    let len: usize = count.as_str().unicode_len();
    let ghost start = line@;
    if len < 9 {
        push_spaces(&mut line, 9 - len);
    }
    assert(line@ =~= start + spaces(9 - count@.len()));
    line.append(count.as_str());
    line.append("  ");
    push_padded(&mut line, stream.msg_name.as_str(), 28);
    line.append(" ");
    line.append(name(stream, prefix, separator).as_str());
    assert(line@ =~= listing(*stream, prefix@, separator));
    line
}

// -------------------------------------------------------------------- counting
/// What became of the messages of a recording.
#[derive(Clone, Copy, Debug, PartialEq, Eq, Structural)]
pub struct Tally {
    pub published: u64,
    /// Messages whose payload had no LCM wire form, or that came before the start.
    pub skipped: u64,
    /// Messages whose own stamp was unusable, so recorded arrival time stood in.
    pub restamped: u64,
}

/// The line on a count, if it counts anything.
pub open spec fn count_line(count: u64, text: Seq<char>) -> Seq<char> {
    if count > 0 {
        decimal(count as nat) + text
    } else {
        Seq::empty()
    }
}

/// What is said at the end of a replay.
pub open spec fn summary(tally: Tally, timeouts: u64) -> Seq<char> {
    "published "@ + decimal(tally.published as nat) + " message(s)\n"@ + (if tally.skipped > 0 {
        "skipped "@ + decimal(tally.skipped as nat) + " message(s)\n"@
    } else {
        Seq::empty()
    }) + count_line(
        tally.restamped,
        " message(s) carried a stamp from another clock; used the recorded arrival time instead\n"@,
    ) + count_line(timeouts, " lockstep reply(s) never arrived\n"@)
}

fn push_count_line(out: &mut String, count: u64, text: &str)
    ensures
        final(out)@ == old(out)@ + count_line(count, text@),
{
    if count > 0 {
        push_decimal(out, count);
        out.append(text);
    }
    assert(out@ =~= old(out)@ + count_line(count, text@));
}

impl Tally {
    pub fn new() -> (r: Self)
        ensures
            r == (Tally { published: 0, skipped: 0, restamped: 0 }),
    {
        Tally { published: 0, skipped: 0, restamped: 0 }
    }

    /// Adds the counts of one more pass over the recording.
    pub fn add_pass(&mut self, pass: &Tally)
        requires
            old(self).published + pass.published <= u64::MAX,
            old(self).skipped + pass.skipped <= u64::MAX,
            old(self).restamped + pass.restamped <= u64::MAX,
        ensures
            final(self).published == old(self).published + pass.published,
            final(self).skipped == old(self).skipped + pass.skipped,
            final(self).restamped == old(self).restamped + pass.restamped,
    {
        self.published = self.published + pass.published;
        self.skipped = self.skipped + pass.skipped;
        self.restamped = self.restamped + pass.restamped;
    }

    /// What is said at the end; `timeouts` is how many lockstep replies never came.
    pub fn report(&self, timeouts: u64) -> (r: String)
        ensures
            r@ == summary(*self, timeouts),
    {
        let mut text: String = "published ".to_owned();
        push_decimal(&mut text, self.published);
        text.append(" message(s)\n");
        let ghost start = text@;
        if self.skipped > 0 {
            text.append("skipped ");
            push_decimal(&mut text, self.skipped);
            text.append(" message(s)\n");
        }
        push_count_line(
            &mut text,
            self.restamped,
            " message(s) carried a stamp from another clock; used the recorded arrival time instead\n",
        );
        push_count_line(&mut text, timeouts, " lockstep reply(s) never arrived\n");
        assert(text@ =~= summary(*self, timeouts));
        text
    }
}

// -------------------------------------------------------------------- deciding
/// Where a message lies in the part of the recording that is replayed.
#[derive(Clone, Copy, Debug, PartialEq, Eq, Structural)]
pub enum Timing {
    /// Before its start.
    Early,
    /// Within it.
    Due,
    /// Past its end.
    Late,
}

/// What is to be done with a message.
#[derive(Clone, Copy, Debug, PartialEq, Eq, Structural)]
pub enum Verdict {
    /// Leave it out.
    Skip,
    /// End the pass.
    Stop,
    /// Publish it as soon as the message before it on its stream was answered. It skips its wall
    /// deadline entirely: that is what lets a consumer that keeps up pull the recording along faster.
    Gated,
    /// Publish it when its time has come.
    Paced,
}

/// What is to be done with a message of a stream that has a wire form; `gate` is the stream whose
/// messages wait to be answered.
pub open spec fn judged(timing: Timing, stream: usize, gate: Option<usize>) -> Verdict {
    match timing {
        Timing::Early => Verdict::Skip,
        Timing::Late => Verdict::Stop,
        Timing::Due => if gate == Some(stream) {
            Verdict::Gated
        } else {
            Verdict::Paced
        },
    }
}

/// One pass over a recording.
#[derive(Debug, PartialEq, Eq)]
pub struct Pass {
    pub tally: Tally,
    pub retimer: Retimer,
    /// Whether the recording clock is pinned to the wall clock.
    pub anchored: bool,
}

impl Pass {
    /// Whether nothing was read yet. Before the first message nothing is retimed.
    pub open spec fn fresh(self) -> bool {
        &&& self.tally == (Tally { published: 0, skipped: 0, restamped: 0 })
        &&& self.retimer == Retimer::Original
        &&& !self.anchored
    }

    /// The pass with one more message left out.
    pub open spec fn with_skip(self) -> Pass {
        Pass {
            tally: Tally { skipped: (self.tally.skipped + 1) as u64, ..self.tally },
            ..self
        }
    }

    /// The pass with the recording clock pinned to the wall clock. Once it is, it stays.
    pub open spec fn with_anchor(self, stamps: Stamps, base_ns: i64, wall_ns: i64) -> Pass {
        if self.anchored {
            self
        } else {
            Pass {
                retimer: match stamps {
                    Stamps::Original => Retimer::Original,
                    Stamps::Shifted => Retimer::Shifted { delta_ns: (wall_ns - base_ns) as i64 },
                    Stamps::Scaled => Retimer::Scaled {
                        first_ns: base_ns,
                        start_wall_ns: wall_ns,
                    },
                },
                anchored: true,
                ..self
            }
        }
    }

    /// The pass with the clocks pinned anew. Only scaled stamps follow.
    pub open spec fn with_pin(self, recorded_ns: i64, wall_ns: i64) -> Pass {
        Pass {
            retimer: match self.retimer {
                Retimer::Scaled { .. } => Retimer::Scaled {
                    first_ns: recorded_ns,
                    start_wall_ns: wall_ns,
                },
                other => other,
            },
            ..self
        }
    }

    /// The pass with one more message sent out.
    pub open spec fn with_published(self, substituted: bool) -> Pass {
        Pass {
            tally: Tally {
                published: (self.tally.published + 1) as u64,
                restamped: if substituted {
                    (self.tally.restamped + 1) as u64
                } else {
                    self.tally.restamped
                },
                ..self.tally
            },
            ..self
        }
    }

    pub fn new() -> (r: Self)
        ensures
            r.fresh(),
    {
        Pass { tally: Tally::new(), retimer: Retimer::Original, anchored: false }
    }

    /// Leaves out a message that has no wire form.
    pub fn skips(&mut self, storage: Storage) -> (r: bool)
        requires
            storage == Storage::Unsupported ==> old(self).tally.skipped < u64::MAX,
        ensures
            r == (storage == Storage::Unsupported),
            *final(self) == (if r {
                old(self).with_skip()
            } else {
                *old(self)
            }),
    {
        if storage == Storage::Unsupported {
            self.tally.skipped = self.tally.skipped + 1;
            true
        } else {
            false
        }
    }

    /// Pins the recording clock to the wall clock, unless it is pinned already.
    pub fn anchor(&mut self, stamps: Stamps, base_ns: i64, wall_ns: i64)
        requires
            !old(self).anchored && stamps == Stamps::Shifted ==> i64::MIN <= wall_ns - base_ns
                <= i64::MAX,
        ensures
            *final(self) == old(self).with_anchor(stamps, base_ns, wall_ns),
    {
        if self.anchored {
            return;
        }
        self.anchored = true;
        self.retimer = match stamps {
            Stamps::Original => Retimer::Original,
            Stamps::Shifted => Retimer::Shifted { delta_ns: wall_ns - base_ns },
            Stamps::Scaled => Retimer::Scaled { first_ns: base_ns, start_wall_ns: wall_ns },
        };
    }

    /// Pins the clocks anew at a message that waited for a reply instead of for its time, so that the
    /// stamps of those that follow are measured from a point that actually happened.
    pub fn repin(&mut self, recorded_ns: i64, wall_ns: i64)
        ensures
            *final(self) == old(self).with_pin(recorded_ns, wall_ns),
    {
        match self.retimer {
            Retimer::Scaled { .. } => {
                self.retimer = Retimer::Scaled { first_ns: recorded_ns, start_wall_ns: wall_ns };
            },
            _ => {},
        }
    }

    /// Decides about a message of a stream; `gate` is the stream whose messages wait to be answered.
    pub fn judge(&mut self, timing: Timing, stream: usize, gate: Option<usize>) -> (r: Verdict)
        requires
            timing == Timing::Early ==> old(self).tally.skipped < u64::MAX,
        ensures
            r == judged(timing, stream, gate),
            *final(self) == (if r == Verdict::Skip {
                old(self).with_skip()
            } else {
                *old(self)
            }),
    {
        match timing {
            Timing::Early => {
                self.tally.skipped = self.tally.skipped + 1;
                Verdict::Skip
            },
            Timing::Late => Verdict::Stop,
            Timing::Due => match gate {
                Some(waiting) => {
                    if waiting == stream {
                        Verdict::Gated
                    } else {
                        Verdict::Paced
                    }
                },
                None => Verdict::Paced,
            },
        }
    }

    /// Decides about a message that is not left out for want of a wire form. The first such message
    /// anchors both clocks, whatever becomes of it.
    pub fn weigh(
        &mut self,
        stamps: Stamps,
        base_ns: i64,
        wall_ns: i64,
        timing: Timing,
        stream: usize,
        gate: Option<usize>,
    ) -> (r: Verdict)
        requires
            !old(self).anchored && stamps == Stamps::Shifted ==> i64::MIN <= wall_ns - base_ns
                <= i64::MAX,
            timing == Timing::Early ==> old(self).tally.skipped < u64::MAX,
        ensures
            r == judged(timing, stream, gate),
            *final(self) == (if r == Verdict::Skip {
                old(self).with_anchor(stamps, base_ns, wall_ns).with_skip()
            } else {
                old(self).with_anchor(stamps, base_ns, wall_ns)
            }),
    {
        self.anchor(stamps, base_ns, wall_ns);
        self.judge(timing, stream, gate)
    }

    /// Counts a message that went out; `substituted` says that its own stamp was unusable.
    pub fn published(&mut self, substituted: bool)
        requires
            old(self).tally.published < u64::MAX,
            substituted ==> old(self).tally.restamped < u64::MAX,
        ensures
            *final(self) == old(self).with_published(substituted),
    {
        self.tally.published = self.tally.published + 1;
        if substituted {
            self.tally.restamped = self.tally.restamped + 1;
        }
    }
}

// --------------------------------------------------------------- whole passes
/// A message that is read in a pass, and what the clocks say when it is.
pub struct Met {
    pub storage: Storage,
    pub stream: usize,
    /// Where the replayed part of the recording starts, and the wall clock.
    pub base_ns: i64,
    pub wall_ns: i64,
    pub timing: Timing,
    /// Where the message stands in the recording, and the wall clock once it was answered.
    pub recorded_ns: i64,
    pub answered_ns: i64,
    /// Whether its own stamp is unusable.
    pub substituted: bool,
}

/// What becomes of a message.
pub enum Fate {
    Skipped,
    Published,
    /// It ends the pass.
    Ended,
}

impl Met {
    /// Whether the message is not left out for want of a wire form.
    pub open spec fn kept(self) -> bool {
        self.storage != Storage::Unsupported
    }

    /// Whether the message goes out as soon as the one before it on its stream was answered.
    pub open spec fn gated(self, gate: Option<usize>) -> bool {
        self.kept() && judged(self.timing, self.stream, gate) == Verdict::Gated
    }

    pub open spec fn fate(self) -> Fate {
        if !self.kept() || self.timing == Timing::Early {
            Fate::Skipped
        } else if self.timing == Timing::Late {
            Fate::Ended
        } else {
            Fate::Published
        }
    }

    /// The pass before and after the message.
    pub open spec fn leads(
        self,
        stamps: Stamps,
        gate: Option<usize>,
        before: Pass,
        after: Pass,
    ) -> bool {
        let weighed = before.with_anchor(stamps, self.base_ns, self.wall_ns);
        let room = before.tally.published < u64::MAX && before.tally.restamped < u64::MAX;
        if !self.kept() {
            before.tally.skipped < u64::MAX && after == before.with_skip()
        } else {
            &&& !before.anchored && stamps == Stamps::Shifted ==> i64::MIN <= self.wall_ns
                - self.base_ns <= i64::MAX
            &&& match judged(self.timing, self.stream, gate) {
                Verdict::Skip => before.tally.skipped < u64::MAX && after == weighed.with_skip(),
                Verdict::Stop => after == weighed,
                Verdict::Gated => room && after == weighed.with_pin(
                    self.recorded_ns,
                    self.answered_ns,
                ).with_published(self.substituted),
                Verdict::Paced => room && after == weighed.with_published(self.substituted),
            }
        }
    }
}

/// Whether messages lead a pass through these states, one before each message and one at the end. A
/// message that ends the pass is the last.
pub open spec fn passed(
    stamps: Stamps,
    gate: Option<usize>,
    messages: Seq<Met>,
    states: Seq<Pass>,
) -> bool {
    &&& states.len() == messages.len() + 1
    &&& states[0].fresh()
    &&& forall|k: int|
        0 <= k < messages.len() ==> (#[trigger] messages[k]).leads(
            stamps,
            gate,
            states[k],
            states[k + 1],
        )
    &&& forall|k: int|
        0 <= k < messages.len() - 1 ==> (#[trigger] messages[k]).fate() != Fate::Ended
}

/// How many messages have a fate.
pub open spec fn fated(messages: Seq<Met>, fate: Fate) -> nat
    decreases messages.len(),
{
    if messages.len() == 0 {
        0
    } else {
        fated(messages.drop_last(), fate) + if messages.last().fate() == fate {
            1nat
        } else {
            0nat
        }
    }
}

/// How many messages went out with a stamp that was not their own.
pub open spec fn restamped(messages: Seq<Met>) -> nat
    decreases messages.len(),
{
    if messages.len() == 0 {
        0
    } else {
        restamped(messages.drop_last()) + if messages.last().fate() == Fate::Published
            && messages.last().substituted {
            1nat
        } else {
            0nat
        }
    }
}

proof fn lemma_counts(
    stamps: Stamps,
    gate: Option<usize>,
    messages: Seq<Met>,
    states: Seq<Pass>,
    k: int,
)
    requires
        passed(stamps, gate, messages, states),
        0 <= k <= messages.len(),
    ensures
        states[k].tally.published == fated(messages.take(k), Fate::Published),
        states[k].tally.skipped == fated(messages.take(k), Fate::Skipped),
        states[k].tally.restamped == restamped(messages.take(k)),
        fated(messages.take(k), Fate::Published) + fated(messages.take(k), Fate::Skipped) + fated(
            messages.take(k),
            Fate::Ended,
        ) == k,
        fated(messages.take(k), Fate::Ended) == (if k > 0 && messages[k - 1].fate() == Fate::Ended {
            1nat
        } else {
            0nat
        }),
    decreases k,
{
    if k > 0 {
        lemma_counts(stamps, gate, messages, states, k - 1);
        assert(messages.take(k).drop_last() =~= messages.take(k - 1));
        assert(messages.take(k).last() == messages[k - 1]);
        assert(messages[k - 1].leads(stamps, gate, states[k - 1], states[k - 1 + 1]));
        if k > 1 {
            assert(messages[k - 2].fate() != Fate::Ended);
        }
    }
}

/// Every message that is read is counted once, as published or as skipped, but for one that ends the
/// pass. Those without a wire form and those before the start are skipped, all others are published.
pub proof fn law_every_message_is_counted_once(
    stamps: Stamps,
    gate: Option<usize>,
    messages: Seq<Met>,
    states: Seq<Pass>,
)
    requires
        passed(stamps, gate, messages, states),
    ensures
        states.last().tally.published == fated(messages, Fate::Published),
        states.last().tally.skipped == fated(messages, Fate::Skipped),
        states.last().tally.restamped == restamped(messages),
        states.last().tally.published + states.last().tally.skipped == messages.len() - (
        if messages.len() > 0 && messages.last().fate() == Fate::Ended {
            1int
        } else {
            0int
        }),
{
    let n = messages.len() as int;
    lemma_counts(stamps, gate, messages, states, n);
    assert(messages.take(n) =~= messages);
}

/// The last message that waited to be answered.
pub open spec fn last_gated(messages: Seq<Met>, gate: Option<usize>) -> Option<Met>
    decreases messages.len(),
{
    if messages.len() == 0 {
        None
    } else if messages.last().gated(gate) {
        Some(messages.last())
    } else {
        last_gated(messages.drop_last(), gate)
    }
}

/// How stamps are rewritten, when `first` is the message that anchored the clocks.
pub open spec fn retimed_by(
    stamps: Stamps,
    gate: Option<usize>,
    messages: Seq<Met>,
    first: Met,
) -> Retimer {
    match stamps {
        Stamps::Original => Retimer::Original,
        Stamps::Shifted => Retimer::Shifted { delta_ns: (first.wall_ns - first.base_ns) as i64 },
        Stamps::Scaled => match last_gated(messages, gate) {
            Some(message) => Retimer::Scaled {
                first_ns: message.recorded_ns,
                start_wall_ns: message.answered_ns,
            },
            None => Retimer::Scaled { first_ns: first.base_ns, start_wall_ns: first.wall_ns },
        },
    }
}

proof fn lemma_clocks(
    stamps: Stamps,
    gate: Option<usize>,
    messages: Seq<Met>,
    states: Seq<Pass>,
    first: int,
    k: int,
)
    requires
        passed(stamps, gate, messages, states),
        0 <= k <= messages.len(),
        0 <= first <= messages.len(),
        forall|j: int| 0 <= j < first ==> !(#[trigger] messages[j]).kept(),
        first < messages.len() ==> messages[first].kept(),
    ensures
        states[k].anchored == (k > first),
        states[k].retimer == (if k > first {
            retimed_by(stamps, gate, messages.take(k), messages[first])
        } else {
            Retimer::Original
        }),
        k <= first ==> last_gated(messages.take(k), gate) is None,
    decreases k,
{
    if k > 0 {
        lemma_clocks(stamps, gate, messages, states, first, k - 1);
        assert(messages.take(k).drop_last() =~= messages.take(k - 1));
        assert(messages.take(k).last() == messages[k - 1]);
        assert(messages[k - 1].leads(stamps, gate, states[k - 1], states[k - 1 + 1]));
    }
}

/// The clocks are anchored once, by the first message that is not left out for want of a wire form,
/// whatever becomes of it. After that only scaled stamps are pinned anew, by each message that waited to
/// be answered, and before it nothing is retimed.
pub proof fn law_the_first_message_anchors_the_clocks(
    stamps: Stamps,
    gate: Option<usize>,
    messages: Seq<Met>,
    states: Seq<Pass>,
    first: int,
    k: int,
)
    requires
        passed(stamps, gate, messages, states),
        0 <= k <= messages.len(),
        0 <= first <= messages.len(),
        forall|j: int| 0 <= j < first ==> !(#[trigger] messages[j]).kept(),
        first < messages.len() ==> messages[first].kept(),
    ensures
        states[k].anchored <==> first < k,
        states[k].retimer == (if first < k {
            retimed_by(stamps, gate, messages.take(k), messages[first])
        } else {
            Retimer::Original
        }),
{
    lemma_clocks(stamps, gate, messages, states, first, k);
}

// ------------------------------------------------------------------- waiting
/// How much of the time before a deadline is given to waiting for it awake. A timer routinely
/// overshoots by milliseconds, enough to smear a 100 Hz stream.
pub const SPIN_NS: u64 = 1_000_000;

/// How long to sleep when a deadline is so far away: to just short of it, or not at all.
pub fn nap(remaining_ns: u64) -> (r: Option<u64>)
    ensures
        r == (if remaining_ns > SPIN_NS {
            Some((remaining_ns - SPIN_NS) as u64)
        } else {
            None
        }),
        r matches Some(ns) ==> ns > 0 && ns + 1_000_000 == remaining_ns,
        r is None <==> remaining_ns <= 1_000_000,
{
    if remaining_ns > SPIN_NS {
        Some(remaining_ns - SPIN_NS)
    } else {
        None
    }
}

/// The start of the replayed part lands on the wall time at which the clocks are anchored, unless stamps
/// are left alone; and at a message that waited to be answered the clocks of scaled stamps are pinned
/// such that it lands on the wall time at which it was.
pub proof fn law_the_anchor_lands_on_the_wall_clock(
    pass: Pass,
    stamps: Stamps,
    base_ns: i64,
    wall_ns: i64,
    recorded_ns: i64,
    answered_ns: i64,
)
    requires
        !pass.anchored,
        i64::MIN <= wall_ns - base_ns <= i64::MAX,
    ensures
        ({
            let anchored = pass.with_anchor(stamps, base_ns, wall_ns);
            let pinned = anchored.with_pin(recorded_ns, answered_ns);
            let lands = anchored.retimer.mapped(base_ns as int, 0);
            &&& stamps == Stamps::Original ==> lands == base_ns && anchored.retimer is Original
            &&& stamps == Stamps::Shifted ==> lands == wall_ns && anchored.retimer is Shifted
            &&& stamps == Stamps::Scaled ==> lands == wall_ns && anchored.retimer is Scaled
            &&& stamps == Stamps::Scaled ==> pinned.retimer is Scaled && pinned.retimer.mapped(
                recorded_ns as int,
                0,
            ) == answered_ns
            &&& stamps != Stamps::Scaled ==> pinned.retimer == anchored.retimer
        }),
{
}

// ----------------------------------------------------------------------- laws
/// An argument that is a recorded name, a colon and another name renames the first stream of that name,
/// unless the other name is empty; the last such argument gives the name that the stream goes out under.
pub proof fn law_a_rename_is_two_names_and_a_colon(
    streams: Seq<Stream>,
    arguments: Seq<String>,
    old_name: Seq<char>,
    new_name: Seq<char>,
    i: int,
)
    requires
        arguments.len() > 0,
        arguments.last()@ == old_name + seq![':'] + new_name,
        !old_name.contains(':'),
        first_named(streams, old_name, i),
    ensures
        renames(arguments.last()@, streams) <==> new_name.len() > 0,
        published_after(streams, arguments, i) == new_name,
        forall|k: int|
            0 <= k < streams.len() && k != i ==> #[trigger] published_after(streams, arguments, k)
                == published_after(streams, arguments.drop_last(), k),
{
    let argument = arguments.last()@;
    let n = old_name.len() as int;
    assert(argument[n] == ':');
    assert forall|j: int| 0 <= j < n implies argument[j] != ':' by {
        assert(argument[j] == old_name[j]);
    }
    lemma_first_index(argument, ':', n);
    assert(argument.take(n) =~= old_name);
    assert(argument.skip(n + 1) =~= new_name);
    assert(!none_named(streams, old_name));
    assert forall|k: int| 0 <= k < streams.len() && k != i implies #[trigger] published_after(
        streams,
        arguments,
        k,
    ) == published_after(streams, arguments.drop_last(), k) by {
        assert(!first_named(streams, old_name, k));
    }
}

/// A stream is warned about when it cannot be replayed at all, and when its stamps are to be rewritten but
/// it has none. The warning says which stream it is about.
pub proof fn law_warnings_are_about_streams_that_do_not_replay_in_full(stream: Stream, stamps: Stamps)
    ensures
        warning_about(stream, stamps) is Some <==> stream.storage == Storage::Unsupported || (
        stream.support == Support::Unstamped && stamps != Stamps::Original),
        warning_about(stream, stamps) matches Some(text) ==> if stream.storage == Storage::Unsupported {
            ("warning: skipping "@ + stream.name@).is_prefix_of(text)
        } else {
            ("warning: "@ + stream.name@).is_prefix_of(text)
        },
        stream.msg_name@.len() > 0 ==> (warning_about(stream, stamps) matches Some(text) ==> if stream.storage
            == Storage::Unsupported {
            (stream.msg_name@ + " has no LCM wire form"@).is_suffix_of(text)
        } else {
            (stream.msg_name@ + "); payloads replay unmodified"@).is_suffix_of(text)
        }),
{
    if let Some(text) = warning_about(stream, stamps) {
        let skipping = "warning: skipping "@ + stream.name@;
        let warning = "warning: "@ + stream.name@;
        if stream.storage == Storage::Unsupported {
            assert(skipping =~= text.subrange(0, skipping.len() as int));
            if stream.msg_name@.len() > 0 {
                let end = stream.msg_name@ + " has no LCM wire form"@;
                assert(end =~= text.subrange(text.len() - end.len(), text.len() as int));
            }
        } else {
            assert(warning =~= text.subrange(0, warning.len() as int));
            if stream.msg_name@.len() > 0 {
                let end = stream.msg_name@ + "); payloads replay unmodified"@;
                assert(end =~= text.subrange(text.len() - end.len(), text.len() as int));
            }
        }
    }
}

/// In a listing the names start in the first column, the counts end before the 43rd, the types start in
/// the 45th and what the streams are published under in the 74th, with nothing but spaces in between,
/// as long as each fits in its place.
pub proof fn law_listings_stand_in_columns(stream: Stream, prefix: Seq<char>, separator: char)
    requires
        stream.name@.len() <= 32,
        decimal(stream.count as nat).len() <= 9,
        stream.msg_name@.len() <= 28,
    ensures
        ({
            let line = listing(stream, prefix, separator);
            let name = stream.name@;
            let count = decimal(stream.count as nat);
            let msg_name = stream.msg_name@;
            &&& line.len() >= 73
            &&& line.take(name.len() as int) == name
            &&& line.subrange(42 - count.len(), 42) == count
            &&& line.subrange(44, 44int + msg_name.len()) == msg_name
            &&& line.skip(73) == published_name(stream, prefix, separator)
            &&& forall|i: int|
                name.len() <= i < 42 - count.len() || 42 <= i < 44 || 44 + msg_name.len() <= i < 73
                    ==> #[trigger] line[i] == ' '
        }),
{
    reveal_strlit(" ");
    reveal_strlit("  ");
    let line = listing(stream, prefix, separator);
    let name = stream.name@;
    let count = decimal(stream.count as nat);
    let msg_name = stream.msg_name@;
    assert(line.take(name.len() as int) =~= name);
    assert(line.subrange(42 - count.len(), 42) =~= count);
    assert(line.subrange(44, 44int + msg_name.len()) =~= msg_name);
    assert(line.skip(73) =~= published_name(stream, prefix, separator));
}

/// The closing words open with what was published. What was skipped comes next, where anything was, and
/// the replies that never arrived close them, where there are any.
pub proof fn law_the_closing_words_count_what_happened(tally: Tally, timeouts: u64)
    ensures
        ({
            let text = summary(tally, timeouts);
            let published = "published "@ + decimal(tally.published as nat) + " message(s)\n"@;
            let skipped = "skipped "@ + decimal(tally.skipped as nat) + " message(s)\n"@;
            let restamped = decimal(tally.restamped as nat)
                + " message(s) carried a stamp from another clock; used the recorded arrival time instead\n"@;
            let late = decimal(timeouts as nat) + " lockstep reply(s) never arrived\n"@;
            &&& published.is_prefix_of(text)
            &&& tally.skipped > 0 ==> (published + skipped).is_prefix_of(text)
            &&& timeouts > 0 ==> late.is_suffix_of(text)
            &&& timeouts == 0 && tally.restamped > 0 ==> restamped.is_suffix_of(text)
            &&& text.len() == published.len() + (if tally.skipped > 0 {
                skipped.len()
            } else {
                0
            }) + (if tally.restamped > 0 {
                restamped.len()
            } else {
                0
            }) + (if timeouts > 0 {
                late.len()
            } else {
                0
            })
        }),
{
    let text = summary(tally, timeouts);
    let n = text.len() as int;
    let published = "published "@ + decimal(tally.published as nat) + " message(s)\n"@;
    let skipped = "skipped "@ + decimal(tally.skipped as nat) + " message(s)\n"@;
    let restamped = decimal(tally.restamped as nat)
        + " message(s) carried a stamp from another clock; used the recorded arrival time instead\n"@;
    let late = decimal(timeouts as nat) + " lockstep reply(s) never arrived\n"@;
    assert(published =~= text.subrange(0, published.len() as int));
    if tally.skipped > 0 {
        assert(published + skipped =~= text.subrange(0, (published + skipped).len() as int));
    }
    if timeouts > 0 {
        assert(late =~= text.subrange(n - late.len(), n));
    } else if tally.restamped > 0 {
        assert(restamped =~= text.subrange(n - restamped.len(), n));
    }
}

/// A message is left out when it comes before the start and ends the pass when it comes past the end. In
/// between it waits for a reply when its stream is the gated one, and for its time when it is not.
pub proof fn law_messages_wait_for_a_reply_or_for_their_time(
    timing: Timing,
    stream: usize,
    gate: Option<usize>,
)
    ensures
        judged(timing, stream, gate) == Verdict::Skip <==> timing == Timing::Early,
        judged(timing, stream, gate) == Verdict::Stop <==> timing == Timing::Late,
        timing == Timing::Due ==> (judged(timing, stream, gate) == Verdict::Gated <==> gate
            == Some(stream)),
        judged(timing, stream, None) != Verdict::Gated,
{
}

impl RenameError {
    /// A complaint quotes the argument that it is about, and the name that no stream has.
    pub proof fn law_complaints_quote_the_argument(self)
        ensures
        self matches RenameError::NoColon(argument) ==> found(self.text(), argument@),
        self matches RenameError::EmptyName(argument) ==> found(self.text(), argument@),
        self matches RenameError::NoStream { argument, old_name } ==> found(self.text(), argument@),
        self matches RenameError::NoStream { argument, old_name } ==> found(self.text(), old_name@),
    {
        if let RenameError::NoColon(argument) = self {
            lemma_found_whole(argument@);
            let front = "--rename wants OLD:NEW, for example wheel_odometry:source_odometry, not "@;
            let back = Seq::empty();
            lemma_found(front, argument@, back, argument@);
            assert(self.text() =~= front + argument@ + back);
        }
        if let RenameError::EmptyName(argument) = self {
            lemma_found_whole(argument@);
            let front = "--rename "@;
            let back = " leaves an empty name"@;
            lemma_found(front, argument@, back, argument@);
            assert(self.text() =~= front + argument@ + back);
        }
        if let RenameError::NoStream { argument, old_name } = self {
            lemma_found_whole(argument@);
            let front = "--rename "@;
            let back = ": no stream named "@ + old_name@ + " is being replayed"@;
            lemma_found(front, argument@, back, argument@);
            assert(self.text() =~= front + argument@ + back);
        }
        if let RenameError::NoStream { argument, old_name } = self {
            lemma_found_whole(old_name@);
            let front = "--rename "@ + argument@ + ": no stream named "@;
            let back = " is being replayed"@;
            lemma_found(front, old_name@, back, old_name@);
            assert(self.text() =~= front + old_name@ + back);
        }
    }
}

/// Renaming a stream changes the name that it goes out under and nothing else.
pub proof fn law_renaming_changes_only_the_published_name(a: Stream, b: Stream)
    ensures
        same_but_published(a, b) <==> b == (Stream { published: b.published, ..a }),
{
}

} // verus!
