//! Pacing the replay against a downstream node instead of the wall clock.
//!
//! `wheel_odom:fused_odom` makes every `wheel_odom` publish wait for the `fused_odom` that answers the
//! one before it. A consumer that keeps up therefore pulls the recording along faster than it was
//! recorded, and one that falls behind slows it down, with a timeout as the escape hatch when nothing
//! answers at all.
//!
//! Waiting takes a clock and a transport; what is decided here is what to wait for and how long.
use crate::cdr::reader::F64;
use crate::source::Stream;
use crate::text::{found, lemma_found, lemma_found_whole, same, split_first, split_once};
use vstd::prelude::*;

verus! {

/// Why a pairing was refused.
#[derive(Debug, PartialEq, Eq)]
pub enum PairingError {
    /// The pairing is not `STREAM:TOPIC`.
    NoColon,
    /// The named stream is not being replayed.
    NotReplayed(String),
}

impl PairingError {
    /// What the error reads like.
    pub open spec fn text(&self) -> Seq<char> {
        match self {
            PairingError::NoColon =>
                "--lockstep wants STREAM:TOPIC, for example wheel_odom:fused_odom"@,
            PairingError::NotReplayed(gate) => "--lockstep waits on "@ + gate@
                + ", which is not being replayed"@,
        }
    }

    pub fn message(&self) -> (r: String)
        ensures
            r@ == self.text(),
    {
        match self {
            PairingError::NoColon => {
                "--lockstep wants STREAM:TOPIC, for example wheel_odom:fused_odom".to_owned()
            },
            PairingError::NotReplayed(gate) => {
                let mut text: String = "--lockstep waits on ".to_owned();
                text.append(gate.as_str());
                text.append(", which is not being replayed");
                text
            },
        }
    }
}

/// Whether a stream is the first one recorded under a name.
pub open spec fn first_named(streams: Seq<Stream>, name: Seq<char>, i: int) -> bool {
    &&& 0 <= i < streams.len()
    &&& streams[i].name@ == name
    &&& forall|j: int| 0 <= j < i ==> (#[trigger] streams[j]).name@ != name
}

/// Whether no stream was recorded under a name.
pub open spec fn none_named(streams: Seq<Stream>, name: Seq<char>) -> bool {
    forall|j: int| 0 <= j < streams.len() ==> (#[trigger] streams[j]).name@ != name
}

/// The first stream that was recorded under a name.
pub fn position(streams: &[Stream], name: &str) -> (r: Option<usize>)
    ensures
        match r {
            Some(i) => first_named(streams@, name@, i as int),
            None => none_named(streams@, name@),
        },
{
    let mut i: usize = 0;
    while i < streams.len()
        invariant
            i <= streams@.len(),
            forall|j: int| 0 <= j < i ==> (#[trigger] streams@[j]).name@ != name@,
        decreases streams@.len() - i,
    {
        if same(streams[i].name.as_str(), name) {
            return Some(i);
        }
        i = i + 1;
    }
    None
}

/// A gate message that has gone out and is waiting to be answered.
#[derive(Clone, Copy, Debug, PartialEq, Eq, Structural)]
pub struct Outstanding {
    pub replies_before: u64,
    pub published_at_ns: u64,
    pub recorded_ts: F64,
    /// When the first reply after those arrived.
    pub first_reply_ns: Option<u64>,
}

/// How the wait for a reply stands.
#[derive(Clone, Copy, Debug, PartialEq, Eq, Structural)]
pub enum Waiting {
    /// The reply came this long after the message went out.
    Answered { wall_ns: u64 },
    /// The timeout ran out first.
    TimedOut,
    /// Nothing yet, with this much time left.
    Left { remaining_ns: u64 },
}

#[derive(Clone, Copy, Debug, PartialEq, Eq, Structural)]
pub struct Lockstep {
    /// Index of the replayed stream whose publishes wait to be answered.
    pub stream: usize,
    /// Replies that never arrived, reported at the end.
    pub timeouts: u64,
    pub timeout_ns: u64,
    pub outstanding: Option<Outstanding>,
}

impl Lockstep {
    /// The lockstep with nothing to wait for.
    pub open spec fn without_wait(self) -> Lockstep {
        Lockstep { outstanding: None, ..self }
    }

    /// The lockstep once one more reply never came.
    pub open spec fn with_timeout(self) -> Lockstep {
        Lockstep { timeouts: (self.timeouts + 1) as u64, ..self }
    }

    /// Reads a pairing. The result is the lockstep and the topic to watch, which is taken literally:
    /// it names a topic on the wire and not a stream of ours.
    pub fn open(pairing: &str, streams: &[Stream], timeout_ns: u64) -> (r: Result<
        (Lockstep, String),
        PairingError,
    >)
        ensures
            match split_first(pairing@, ':') {
                Some((gate, reply)) => match r {
                    Ok((lockstep, topic)) => {
                        &&& first_named(streams@, gate, lockstep.stream as int)
                        &&& lockstep.timeouts == 0
                        &&& lockstep.timeout_ns == timeout_ns
                        &&& lockstep.outstanding is None
                        &&& topic@ == reply
                    },
                    Err(error) => none_named(streams@, gate) && (
                    error matches PairingError::NotReplayed(name) && name@ == gate),
                },
                None => r matches Err(error) && error == PairingError::NoColon,
            },
    {
        match split_once(pairing, ':') {
            Some((gate, reply)) => match position(streams, gate) {
                Some(stream) => Ok(
                    (
                        Lockstep { stream, timeouts: 0, timeout_ns, outstanding: None },
                        reply.to_owned(),
                    ),
                ),
                None => Err(PairingError::NotReplayed(gate.to_owned())),
            },
            None => Err(PairingError::NoColon),
        }
    }

    /// Records that a gate message just went out, so the next wait knows what it is waiting for.
    /// `replies` is how many replies have arrived by then.
    pub fn sent(&mut self, recorded_ts: F64, replies: u64, published_at_ns: u64)
        ensures
            *final(self) == (Lockstep {
                outstanding: Some(
                    Outstanding {
                        replies_before: replies,
                        published_at_ns,
                        recorded_ts,
                        first_reply_ns: None,
                    },
                ),
                ..*old(self)
            }),
    {
        self.outstanding = Some(
            Outstanding {
                replies_before: replies,
                published_at_ns,
                recorded_ts,
                first_reply_ns: None,
            },
        );
    }

    /// What there is to wait for. The first gate message has nothing to wait for, and nothing is waited
    /// for twice.
    pub fn wait(&mut self) -> (r: Option<Outstanding>)
        ensures
            r == old(self).outstanding,
            *final(self) == old(self).without_wait(),
    {
        let outstanding: Option<Outstanding> = self.outstanding;
        self.outstanding = None;
        outstanding
    }

    /// When a wait that begins at `now_ns` is over.
    pub fn deadline(&self, now_ns: u64) -> (r: u64)
        requires
            now_ns + self.timeout_ns <= u64::MAX,
        ensures
            r == now_ns + self.timeout_ns,
    {
        now_ns + self.timeout_ns
    }

    /// Counts a reply that never came.
    pub fn timed_out(&mut self)
        requires
            old(self).timeouts < u64::MAX,
        ensures
            *final(self) == old(self).with_timeout(),
    {
        self.timeouts = self.timeouts + 1;
    }
}

/// The part of a time that lies past another, or nothing.
pub open spec fn past_time(a: u64, b: u64) -> u64 {
    if a > b {
        (a - b) as u64
    } else {
        0
    }
}

impl Outstanding {
    /// The wait once one more reply is known: the `replies`-th of all, which arrived at `at_ns`.
    pub open spec fn with_reply(self, replies: u64, at_ns: u64) -> Outstanding {
        Outstanding {
            first_reply_ns: if self.first_reply_ns is None && replies > self.replies_before {
                Some(at_ns)
            } else {
                self.first_reply_ns
            },
            ..self
        }
    }

    /// Takes note of a reply: the `replies`-th of all, which arrived at `at_ns`. Replies are taken note
    /// of in the order in which they arrive, and only the first that was not there when the message
    /// went out counts.
    pub fn arrived(&mut self, replies: u64, at_ns: u64)
        ensures
            *final(self) == old(self).with_reply(replies, at_ns),
    {
        if self.first_reply_ns.is_none() && replies > self.replies_before {
            self.first_reply_ns = Some(at_ns);
        }
    }

    /// How a wait stands at a time: answered, if a reply is known that counts, and else over at the
    /// deadline.
    pub open spec fn stands(self, now_ns: u64, deadline_ns: u64) -> Waiting {
        match self.first_reply_ns {
            Some(at_ns) => Waiting::Answered { wall_ns: past_time(at_ns, self.published_at_ns) },
            None => if now_ns >= deadline_ns {
                Waiting::TimedOut
            } else {
                Waiting::Left { remaining_ns: past_time(deadline_ns, now_ns) }
            },
        }
    }

    /// How a wait stands at `now_ns`.
    ///
    /// Timing from the publish rather than from the moment the wait began keeps our own pacing
    /// decisions out of the measurement: the reply may well have landed while we were still emitting
    /// the frames in between.
    pub fn next_reply(&self, now_ns: u64, deadline_ns: u64) -> (r: Waiting)
        ensures
            r == self.stands(now_ns, deadline_ns),
            r matches Waiting::Answered { wall_ns } ==> (self.first_reply_ns matches Some(at_ns) && (at_ns
                >= self.published_at_ns ==> self.published_at_ns + wall_ns == at_ns)),
            r matches Waiting::Left { remaining_ns } ==> now_ns + remaining_ns == deadline_ns,
            r is TimedOut ==> self.first_reply_ns is None && now_ns >= deadline_ns,
    {
        match self.first_reply_ns {
            Some(at_ns) => {
                let wall_ns: u64 = if at_ns > self.published_at_ns {
                    at_ns - self.published_at_ns
                } else {
                    0
                };
                Waiting::Answered { wall_ns }
            },
            None => {
                if now_ns >= deadline_ns {
                    return Waiting::TimedOut;
                }
                Waiting::Left { remaining_ns: deadline_ns - now_ns }
            },
        }
    }
}

/// A wait once several replies are known, each by its number and its arrival.
pub open spec fn with_replies(waiting: Outstanding, replies: Seq<(u64, u64)>) -> Outstanding
    decreases replies.len(),
{
    if replies.len() == 0 {
        waiting
    } else {
        with_replies(waiting, replies.drop_last()).with_reply(replies.last().0, replies.last().1)
    }
}

/// An answer is timed by the first reply that was not there yet when the message went out, however
/// many replies follow it, and where there is no such reply the wait goes on.
pub proof fn law_the_first_reply_answers(waiting: Outstanding, replies: Seq<(u64, u64)>, first: int)
    requires
        waiting.first_reply_ns is None,
        0 <= first <= replies.len(),
        forall|k: int| 0 <= k < first ==> (#[trigger] replies[k]).0 <= waiting.replies_before,
        first < replies.len() ==> replies[first].0 > waiting.replies_before,
    ensures
        with_replies(waiting, replies) == (Outstanding {
            first_reply_ns: if first < replies.len() {
                Some(replies[first].1)
            } else {
                None
            },
            ..waiting
        }),
    decreases replies.len(),
{
    if replies.len() > 0 {
        let rest = replies.drop_last();
        if first < replies.len() {
            assert(rest.len() > first ==> rest[first] == replies[first]);
            law_the_first_reply_answers(waiting, rest, first);
        } else {
            law_the_first_reply_answers(waiting, rest, first - 1);
        }
    }
}

// --------------------------------------------------------------- whole waits
/// The replies that have arrived by a time.
pub open spec fn arrived_by(replies: Seq<(u64, u64)>, now_ns: u64) -> Seq<(u64, u64)> {
    replies.filter(|reply: (u64, u64)| reply.1 <= now_ns)
}

/// Whether replies come in the order in which they arrive.
pub open spec fn in_order(replies: Seq<(u64, u64)>) -> bool {
    forall|i: int, j: int|
        0 <= i <= j < replies.len() ==> (#[trigger] replies[i]).1 <= (#[trigger] replies[j]).1
}

/// How a wait stands at a time, with what has arrived by then.
pub open spec fn standing(
    waiting: Outstanding,
    replies: Seq<(u64, u64)>,
    now_ns: u64,
    deadline_ns: u64,
) -> Waiting {
    with_replies(waiting, arrived_by(replies, now_ns)).stands(now_ns, deadline_ns)
}

/// When a wait that begins at a time is over at the latest.
pub open spec fn deadline_of(lockstep: Lockstep, start_ns: u64) -> u64 {
    (start_ns + lockstep.timeout_ns) as u64
}

/// The lockstep before and after a wait that begins at a time, while these replies arrive. `looks` are the
/// times at which it is looked at, the last of them the one at which it is over.
pub open spec fn waited(
    before: Lockstep,
    start_ns: u64,
    replies: Seq<(u64, u64)>,
    looks: Seq<u64>,
    after: Lockstep,
) -> bool {
    match before.outstanding {
        None => looks.len() == 0 && after == before.without_wait(),
        Some(waiting) => {
            let deadline_ns = deadline_of(before, start_ns);
            &&& start_ns + before.timeout_ns <= u64::MAX
            &&& looks.len() > 0
            &&& forall|k: int|
                0 <= k < looks.len() - 1 ==> standing(
                    waiting,
                    replies,
                    #[trigger] looks[k],
                    deadline_ns,
                ) is Left
            &&& match standing(waiting, replies, looks.last(), deadline_ns) {
                Waiting::Answered { .. } => after == before.without_wait(),
                Waiting::TimedOut => before.timeouts < u64::MAX && after
                    == before.without_wait().with_timeout(),
                Waiting::Left { .. } => false,
            }
        },
    }
}

/// Whether a reply is the first that was not there yet when the message went out.
pub open spec fn first_newer(waiting: Outstanding, replies: Seq<(u64, u64)>, first: int) -> bool {
    &&& 0 <= first < replies.len()
    &&& replies[first].0 > waiting.replies_before
    &&& forall|k: int| 0 <= k < first ==> (#[trigger] replies[k]).0 <= waiting.replies_before
}

proof fn lemma_arrived_by(replies: Seq<(u64, u64)>, now_ns: u64) -> (n: int)
    requires
        in_order(replies),
    ensures
        0 <= n <= replies.len(),
        arrived_by(replies, now_ns) == replies.take(n),
        forall|i: int| 0 <= i < n ==> (#[trigger] replies[i]).1 <= now_ns,
        forall|i: int| n <= i < replies.len() ==> (#[trigger] replies[i]).1 > now_ns,
    decreases replies.len(),
{
    reveal(Seq::filter);
    if replies.len() == 0 {
        assert(replies.take(0) =~= replies);
        0
    } else {
        let rest = replies.drop_last();
        assert forall|i: int| 0 <= i < rest.len() implies #[trigger] rest[i] == replies[i] by {}
        let n = lemma_arrived_by(rest, now_ns);
        if replies.last().1 <= now_ns {
            assert forall|i: int| 0 <= i < replies.len() implies (#[trigger] replies[i]).1
                <= now_ns by {
                assert(replies[i].1 <= replies[replies.len() - 1].1);
            }
            if n < rest.len() {
                assert(rest[n].1 > now_ns);
            }
            assert(rest.take(n).push(replies.last()) =~= replies.take(n + 1));
            n + 1
        } else {
            assert(rest.take(n) =~= replies.take(n));
            assert forall|i: int| 0 <= i < n implies (#[trigger] replies[i]).1 <= now_ns by {
                assert(rest[i].1 <= now_ns);
            }
            assert forall|i: int| n <= i < replies.len() implies (#[trigger] replies[i]).1
                > now_ns by {
                if i < rest.len() {
                    assert(rest[i].1 > now_ns);
                }
            }
            n
        }
    }
}

/// How a wait stands, told by the first newer reply.
proof fn lemma_standing(
    waiting: Outstanding,
    replies: Seq<(u64, u64)>,
    now_ns: u64,
    deadline_ns: u64,
    first: int,
)
    requires
        waiting.first_reply_ns is None,
        in_order(replies),
        0 <= first <= replies.len(),
        forall|k: int| 0 <= k < first ==> (#[trigger] replies[k]).0 <= waiting.replies_before,
        first < replies.len() ==> replies[first].0 > waiting.replies_before,
    ensures
        standing(waiting, replies, now_ns, deadline_ns) == (if first < replies.len()
            && replies[first].1 <= now_ns {
            Waiting::Answered { wall_ns: past_time(replies[first].1, waiting.published_at_ns) }
        } else if now_ns >= deadline_ns {
            Waiting::TimedOut
        } else {
            Waiting::Left { remaining_ns: past_time(deadline_ns, now_ns) }
        }),
{
    let n = lemma_arrived_by(replies, now_ns);
    let known = replies.take(n);
    assert forall|k: int| 0 <= k < n implies #[trigger] known[k] == replies[k] by {}
    let place = if first < n {
        first
    } else {
        n
    };
    law_the_first_reply_answers(waiting, known, place);
}

/// A wait as a whole. With nothing to wait for, nothing changes. With a reply by the deadline that was not
/// there yet when the message went out, the wait ends answered, timed by the first such reply, and no
/// timeout is counted. With none before it is over, it ends by the timeout, which is counted. Either way
/// nothing is left to wait for.
pub proof fn law_a_wait_is_answered_by_the_first_newer_reply_or_times_out(
    before: Lockstep,
    start_ns: u64,
    replies: Seq<(u64, u64)>,
    looks: Seq<u64>,
    after: Lockstep,
)
    requires
        before.outstanding matches Some(waiting) ==> waiting.first_reply_ns is None,
        in_order(replies),
        waited(before, start_ns, replies, looks, after),
    ensures
        after == (Lockstep { outstanding: None, timeouts: after.timeouts, ..before }),
        before.outstanding is None ==> after == before,
        before.outstanding matches Some(waiting) ==> {
            let deadline_ns = deadline_of(before, start_ns);
            let end = standing(waiting, replies, looks.last(), deadline_ns);
            &&& forall|first: int| #[trigger]
                first_newer(waiting, replies, first) && replies[first].1 <= deadline_ns ==> {
                    &&& end == Waiting::Answered {
                        wall_ns: past_time(replies[first].1, waiting.published_at_ns),
                    }
                    &&& after.timeouts == before.timeouts
                }
            &&& (forall|i: int|
                0 <= i < replies.len() && (#[trigger] replies[i]).1 <= looks.last()
                    ==> replies[i].0 <= waiting.replies_before) ==> {
                &&& end == Waiting::TimedOut
                &&& looks.last() >= deadline_ns
                &&& after.timeouts == before.timeouts + 1
            }
        },
{
    if let Some(waiting) = before.outstanding {
        let deadline_ns = deadline_of(before, start_ns);
        let last = looks.last();
        assert forall|first: int| #[trigger]
            first_newer(waiting, replies, first) && replies[first].1 <= deadline_ns implies {
            &&& standing(waiting, replies, last, deadline_ns) == Waiting::Answered {
                wall_ns: past_time(replies[first].1, waiting.published_at_ns),
            }
            &&& after.timeouts == before.timeouts
        } by {
            lemma_standing(waiting, replies, last, deadline_ns, first);
        }
        if forall|i: int|
            0 <= i < replies.len() && (#[trigger] replies[i]).1 <= last ==> replies[i].0
                <= waiting.replies_before {
            let n = lemma_arrived_by(replies, last);
            let known = replies.take(n);
            assert forall|k: int| 0 <= k < n implies (#[trigger] known[k]).0
                <= waiting.replies_before by {
                assert(known[k] == replies[k]);
            }
            law_the_first_reply_answers(waiting, known, n);
        }
    }
}

/// How a wait stands, in numbers. What a wait took and when its message went out add up to when the reply
/// arrived, unless that was before; what is left and the time add up to the deadline.
pub proof fn law_times_of_a_wait_add_up(waiting: Outstanding, now_ns: u64, deadline_ns: u64)
    ensures
        match waiting.stands(now_ns, deadline_ns) {
            Waiting::Answered { wall_ns } => {
                &&& waiting.first_reply_ns is Some
                &&& waiting.first_reply_ns->0 >= waiting.published_at_ns
                    ==> waiting.published_at_ns + wall_ns == waiting.first_reply_ns->0
                &&& waiting.first_reply_ns->0 < waiting.published_at_ns ==> wall_ns == 0
            },
            Waiting::Left { remaining_ns } => {
                &&& waiting.first_reply_ns is None
                &&& remaining_ns > 0
                &&& now_ns + remaining_ns == deadline_ns
            },
            Waiting::TimedOut => waiting.first_reply_ns is None && deadline_ns <= now_ns,
        },
{
}

/// A whole wait, in numbers: the first reply that was not there yet when the message went out, if it
/// arrives by the deadline, ends the wait; and the time that the wait is said to have taken is the time
/// from the publish to that reply. The deadline lies the timeout after the wait began.
pub proof fn law_an_answer_is_timed_from_the_publish_to_the_first_newer_reply(
    before: Lockstep,
    waiting: Outstanding,
    start_ns: u64,
    replies: Seq<(u64, u64)>,
    looks: Seq<u64>,
    after: Lockstep,
    first: int,
)
    requires
        before.outstanding == Some(waiting),
        waiting.first_reply_ns is None,
        in_order(replies),
        waited(before, start_ns, replies, looks, after),
        0 <= first < replies.len(),
        replies[first].0 > waiting.replies_before,
        forall|k: int| 0 <= k < first ==> (#[trigger] replies[k]).0 <= waiting.replies_before,
        replies[first].1 <= start_ns + before.timeout_ns,
    ensures
        standing(
            waiting,
            replies,
            looks[looks.len() - 1],
            (start_ns + before.timeout_ns) as u64,
        ) matches Waiting::Answered { wall_ns } && (if replies[first].1 >= waiting.published_at_ns {
            waiting.published_at_ns + wall_ns == replies[first].1
        } else {
            wall_ns == 0
        }),
        after.timeouts == before.timeouts,
        after.outstanding is None,
{
    assert(first_newer(waiting, replies, first));
    law_a_wait_is_answered_by_the_first_newer_reply_or_times_out(
        before,
        start_ns,
        replies,
        looks,
        after,
    );
}

impl PairingError {
    /// A complaint names the stream that is not replayed.
    pub proof fn law_complaints_name_the_stream(self)
        ensures
        self matches PairingError::NotReplayed(gate) ==> found(self.text(), gate@),
    {
        if let PairingError::NotReplayed(gate) = self {
            lemma_found_whole(gate@);
            let front = "--lockstep waits on "@;
            let back = ", which is not being replayed"@;
            lemma_found(front, gate@, back, gate@);
            assert(self.text() =~= front + gate@ + back);
        }
    }
}

/// Giving up on a reply counts one timeout and changes nothing else; taking up a wait leaves none behind
/// and changes nothing else.
pub proof fn law_waits_and_timeouts_change_nothing_else(lockstep: Lockstep)
    requires
        lockstep.timeouts < u64::MAX,
    ensures
        lockstep.with_timeout().timeouts == lockstep.timeouts + 1,
        lockstep.with_timeout().stream == lockstep.stream,
        lockstep.with_timeout().timeout_ns == lockstep.timeout_ns,
        lockstep.with_timeout().outstanding == lockstep.outstanding,
        lockstep.without_wait().outstanding is None,
        lockstep.without_wait().stream == lockstep.stream,
        lockstep.without_wait().timeout_ns == lockstep.timeout_ns,
        lockstep.without_wait().timeouts == lockstep.timeouts,
{
}

} // verus!
