//! Recognising our own messages when they come back.
use crate::text::same;
use std::collections::VecDeque;
use vstd::prelude::*;

verus! {

/// How long a published message is remembered: a stamp only has to survive the loopback trip.
pub const LOOPBACK_TTL_NS: u64 = 10_000_000_000;

/// A message that this process has put on the wire.
#[derive(Debug, PartialEq, Eq)]
pub struct Published {
    pub at_ns: u64,
    pub channel: String,
    pub stamp_ns: i64,
}

/// The `(channel, stamp)` pairs this process has just put on the wire, the oldest first.
///
/// Both transports deliver to their own subscribers, so a replay that also records would otherwise
/// write its own output straight back into the file. The key is the payload's timestamp rather than a
/// hash of the bytes: hashing every frame of a 400 KB image stream costs more than the recording does.
///
/// Entries expire. That leaves a real message with the same stamp on the same channel, a second
/// publisher echoing the replay, indistinguishable from our own.
#[derive(Debug)]
pub struct SelfPublished {
    pub order: VecDeque<Published>,
}

/// Whether a message was published too long ago to be remembered.
pub open spec fn expired(published: Published, now_ns: u64) -> bool {
    now_ns >= published.at_ns + LOOPBACK_TTL_NS
}

/// What is still remembered: everything from the first message on that has not expired.
pub open spec fn remembered(order: Seq<Published>, now_ns: u64) -> Seq<Published>
    decreases order.len(),
{
    if order.len() > 0 && expired(order[0], now_ns) {
        remembered(order.skip(1), now_ns)
    } else {
        order
    }
}

/// Whether a message is one of those.
pub open spec fn is_ours(published: Published, channel: Seq<char>, stamp_ns: i64) -> bool {
    published.channel@ == channel && published.stamp_ns == stamp_ns
}

/// Whether a message is among those that were published.
pub open spec fn among(order: Seq<Published>, channel: Seq<char>, stamp_ns: i64) -> bool {
    exists|i: int| 0 <= i < order.len() && is_ours(#[trigger] order[i], channel, stamp_ns)
}

/// What is remembered once a message was noted: what has not expired, and the message, unless it is
/// among that. One that is remembered already keeps its time.
pub open spec fn noted(
    before: Seq<Published>,
    channel: Seq<char>,
    stamp_ns: i64,
    now_ns: u64,
    after: Seq<Published>,
) -> bool {
    let left = remembered(before, now_ns);
    if among(left, channel, stamp_ns) {
        after == left
    } else {
        &&& after.len() == left.len() + 1
        &&& after.drop_last() == left
        &&& after.last().at_ns == now_ns
        &&& is_ours(after.last(), channel, stamp_ns)
    }
}

impl SelfPublished {
    /// Nothing is remembered twice.
    pub open spec fn wf(self) -> bool {
        forall|i: int, j: int|
            0 <= i < j < self.order@.len() ==> !is_ours(
                #[trigger] self.order@[i],
                (#[trigger] self.order@[j]).channel@,
                self.order@[j].stamp_ns,
            )
    }

    pub fn new() -> (r: Self)
        ensures
            r.wf(),
            r.order@.len() == 0,
    {
        SelfPublished { order: VecDeque::new() }
    }

    fn holds(&self, channel: &str, stamp_ns: i64) -> (r: bool)
        ensures
            r == among(self.order@, channel@, stamp_ns),
    {
        let mut i: usize = 0;
        while i < self.order.len()
            invariant
                i <= self.order@.len(),
                forall|j: int|
                    0 <= j < i ==> !is_ours(#[trigger] self.order@[j], channel@, stamp_ns),
            decreases self.order@.len() - i,
        {
            if self.order[i].stamp_ns == stamp_ns && same(self.order[i].channel.as_str(), channel) {
                assert(is_ours(self.order@[i as int], channel@, stamp_ns));
                return true;
            }
            i = i + 1;
        }
        false
    }

    /// Notes a message that goes out at `now_ns`.
    pub fn note(&mut self, channel: &str, stamp_ns: i64, now_ns: u64)
        requires
            old(self).wf(),
        ensures
            final(self).wf(),
            noted(old(self).order@, channel@, stamp_ns, now_ns, final(self).order@),
    {
        self.expire(now_ns);
        let ghost left = self.order@;
        if !self.holds(channel, stamp_ns) {
            self.order.push_back(
                Published { at_ns: now_ns, channel: channel.to_owned(), stamp_ns },
            );
            assert(self.order@.drop_last() =~= left);
            assert forall|i: int, j: int| 0 <= i < j < self.order@.len() implies !is_ours(
                #[trigger] self.order@[i],
                (#[trigger] self.order@[j]).channel@,
                self.order@[j].stamp_ns,
            ) by {
                assert(self.order@[i] == left[i]);
                if j < left.len() {
                    assert(self.order@[j] == left[j]);
                }
            }
        }
    }

    /// Whether a message that came in at `now_ns` is one that went out.
    pub fn claims(&mut self, channel: &str, stamp_ns: i64, now_ns: u64) -> (r: bool)
        requires
            old(self).wf(),
        ensures
            final(self).wf(),
            final(self).order@ == remembered(old(self).order@, now_ns),
            r == among(remembered(old(self).order@, now_ns), channel@, stamp_ns),
    {
        self.expire(now_ns);
        self.holds(channel, stamp_ns)
    }

    fn expire(&mut self, now_ns: u64)
        requires
            old(self).wf(),
        ensures
            final(self).wf(),
            final(self).order@ == remembered(old(self).order@, now_ns),
    {
        loop
            invariant
                self.wf(),
                remembered(self.order@, now_ns) == remembered(old(self).order@, now_ns),
            ensures
                self.wf(),
                self.order@ == remembered(old(self).order@, now_ns),
            decreases self.order@.len(),
        {
            if self.order.len() == 0 {
                break;
            }
            let at_ns: u64 = self.order[0].at_ns;
            if now_ns < at_ns || now_ns - at_ns < LOOPBACK_TTL_NS {
                break;
            }
            let ghost before = self.order@;
            let first: Option<Published> = self.order.pop_front();
            assert(self.order@ =~= before.skip(1));
            assert forall|i: int, j: int| 0 <= i < j < self.order@.len() implies !is_ours(
                #[trigger] self.order@[i],
                (#[trigger] self.order@[j]).channel@,
                self.order@[j].stamp_ns,
            ) by {
                assert(self.order@[i] == before[i + 1]);
                assert(self.order@[j] == before[j + 1]);
            }
        }
    }
}

/// A message that went out is recognised on its way back for as long as it has not expired, and a
/// message that nobody sent is not.
pub proof fn law_published_messages_are_recognised(
    order: Seq<Published>,
    i: int,
    now_ns: u64,
    channel: Seq<char>,
    stamp_ns: i64,
)
    requires
        0 <= i < order.len(),
    ensures
        !expired(order[i], now_ns) ==> among(
            remembered(order, now_ns),
            order[i].channel@,
            order[i].stamp_ns,
        ),
        among(remembered(order, now_ns), channel, stamp_ns) ==> among(order, channel, stamp_ns),
    decreases order.len(),
{
    if expired(order[0], now_ns) {
        let rest = order.skip(1);
        if rest.len() > 0 {
            let k = if i > 0 {
                i - 1
            } else {
                0
            };
            law_published_messages_are_recognised(rest, k, now_ns, channel, stamp_ns);
        }
        if among(rest, channel, stamp_ns) {
            let j = choose|j: int|
                0 <= j < rest.len() && is_ours(#[trigger] rest[j], channel, stamp_ns);
            assert(is_ours(order[j + 1], channel, stamp_ns));
        }
    } else {
        assert(is_ours(order[i], order[i].channel@, order[i].stamp_ns));
    }
}

/// While the clock does not go back, nothing that has expired is remembered.
pub proof fn law_expired_messages_are_forgotten(order: Seq<Published>, now_ns: u64)
    requires
        forall|i: int, j: int|
            0 <= i <= j < order.len() ==> (#[trigger] order[i]).at_ns <= (#[trigger] order[j]).at_ns,
    ensures
        forall|i: int|
            0 <= i < remembered(order, now_ns).len() ==> !expired(
                #[trigger] remembered(order, now_ns)[i],
                now_ns,
            ),
    decreases order.len(),
{
    if order.len() > 0 {
        if expired(order[0], now_ns) {
            law_expired_messages_are_forgotten(order.skip(1), now_ns);
            assert(remembered(order, now_ns) == remembered(order.skip(1), now_ns));
        } else {
            assert forall|i: int| 0 <= i < order.len() implies !expired(
                #[trigger] order[i],
                now_ns,
            ) by {
                assert(order[0].at_ns <= order[i].at_ns);
            }
            assert(remembered(order, now_ns) == order);
        }
    }
}

// ---------------------------------------------------------------- whole histories
/// Something that happens to what is remembered, and when.
pub enum Call {
    /// A message goes out.
    Note { channel: Seq<char>, stamp_ns: i64, now_ns: u64 },
    /// A message comes in and is asked about.
    Claim { now_ns: u64 },
}

impl Call {
    pub open spec fn time(self) -> u64 {
        match self {
            Call::Note { now_ns, .. } => now_ns,
            Call::Claim { now_ns } => now_ns,
        }
    }

    /// Whether this message goes out.
    pub open spec fn notes(self, channel: Seq<char>, stamp_ns: i64) -> bool {
        self matches Call::Note { channel: c, stamp_ns: s, .. } && c == channel && s == stamp_ns
    }

    /// What is remembered before and after.
    pub open spec fn leads(self, before: Seq<Published>, after: Seq<Published>) -> bool {
        match self {
            Call::Note { channel, stamp_ns, now_ns } => noted(
                before,
                channel,
                stamp_ns,
                now_ns,
                after,
            ),
            Call::Claim { now_ns } => after == remembered(before, now_ns),
        }
    }
}

/// Whether these are the states that calls lead through from nothing remembered, one before each call
/// and one at the end, while the clock does not go back.
pub open spec fn history(calls: Seq<Call>, states: Seq<Seq<Published>>) -> bool {
    &&& states.len() == calls.len() + 1
    &&& states[0].len() == 0
    &&& forall|k: int|
        0 <= k < calls.len() ==> (#[trigger] calls[k]).leads(states[k], states[k + 1])
    &&& forall|j: int, k: int|
        0 <= j <= k < calls.len() ==> (#[trigger] calls[j]).time() <= (#[trigger] calls[k]).time()
}

proof fn lemma_remembered(order: Seq<Published>, now_ns: u64) -> (gone: int)
    ensures
        0 <= gone <= order.len(),
        remembered(order, now_ns) == order.skip(gone),
        forall|i: int| 0 <= i < gone ==> expired(#[trigger] order[i], now_ns),
    decreases order.len(),
{
    if order.len() > 0 && expired(order[0], now_ns) {
        let rest = order.skip(1);
        let gone = lemma_remembered(rest, now_ns);
        assert(rest.skip(gone) =~= order.skip(gone + 1));
        assert forall|i: int| 0 <= i < gone + 1 implies expired(#[trigger] order[i], now_ns) by {
            if i > 0 {
                assert(rest[i - 1] == order[i]);
            }
        }
        gone + 1
    } else {
        assert(order.skip(0) =~= order);
        0
    }
}

/// Whether what is remembered is in the order of its times, none of them past a time.
spec fn ascending(order: Seq<Published>, now_ns: u64) -> bool {
    &&& forall|i: int, j: int|
        0 <= i <= j < order.len() ==> (#[trigger] order[i]).at_ns <= (#[trigger] order[j]).at_ns
    &&& forall|i: int| 0 <= i < order.len() ==> (#[trigger] order[i]).at_ns <= now_ns
}

proof fn lemma_stays_ascending(
    call: Call,
    before: Seq<Published>,
    after: Seq<Published>,
    earlier_ns: u64,
)
    requires
        ascending(before, earlier_ns),
        earlier_ns <= call.time(),
        call.leads(before, after),
    ensures
        ascending(after, call.time()),
{
    let left = remembered(before, call.time());
    let gone = lemma_remembered(before, call.time());
    assert forall|i: int| 0 <= i < left.len() implies (#[trigger] left[i]).at_ns <= earlier_ns by {
        assert(left[i] == before[gone + i]);
    }
    assert forall|i: int, j: int| 0 <= i <= j < left.len() implies (#[trigger] left[i]).at_ns <= (
    #[trigger] left[j]).at_ns by {
        assert(left[i] == before[gone + i]);
        assert(left[j] == before[gone + j]);
    }
    if after != left {
        assert forall|i: int| 0 <= i < left.len() implies #[trigger] after[i] == left[i] by {
            assert(after.drop_last()[i] == left[i]);
        }
    }
}

proof fn lemma_history_ascends(calls: Seq<Call>, states: Seq<Seq<Published>>, k: int)
    requires
        history(calls, states),
        0 <= k <= calls.len(),
    ensures
        ascending(
            states[k],
            if k == 0 {
                0
            } else {
                calls[k - 1].time()
            },
        ),
    decreases k,
{
    if k > 0 {
        lemma_history_ascends(calls, states, k - 1);
        assert(calls[k - 1].leads(states[k - 1], states[k - 1 + 1]));
        let earlier_ns: u64 = if k == 1 {
            0
        } else {
            calls[k - 2].time()
        };
        lemma_stays_ascending(calls[k - 1], states[k - 1], states[k], earlier_ns);
    }
}

/// Nothing is remembered of a message that was not noted.
proof fn lemma_not_noted(
    calls: Seq<Call>,
    states: Seq<Seq<Published>>,
    channel: Seq<char>,
    stamp_ns: i64,
    k: int,
)
    requires
        history(calls, states),
        0 <= k <= calls.len(),
        forall|j: int| 0 <= j < k ==> !(#[trigger] calls[j]).notes(channel, stamp_ns),
    ensures
        !among(states[k], channel, stamp_ns),
    decreases k,
{
    if k > 0 {
        lemma_not_noted(calls, states, channel, stamp_ns, k - 1);
        let call = calls[k - 1];
        let before = states[k - 1];
        let after = states[k];
        assert(calls[k - 1].leads(states[k - 1], states[k - 1 + 1]));
        let left = remembered(before, call.time());
        let gone = lemma_remembered(before, call.time());
        if among(after, channel, stamp_ns) {
            let i = choose|i: int|
                0 <= i < after.len() && is_ours(#[trigger] after[i], channel, stamp_ns);
            if i < left.len() {
                if after != left {
                    assert(after.drop_last()[i] == left[i]);
                }
                assert(is_ours(before[gone + i], channel, stamp_ns));
            } else {
                assert(after[i] == after.last());
            }
        }
    }
}

/// What is known of a message after it was noted anew: only that note is remembered, for as long as it
/// has not expired.
proof fn lemma_noted(
    calls: Seq<Call>,
    states: Seq<Seq<Published>>,
    channel: Seq<char>,
    stamp_ns: i64,
    first: int,
    k: int,
)
    requires
        history(calls, states),
        0 <= first < k <= calls.len(),
        calls[first].notes(channel, stamp_ns),
        !among(remembered(states[first], calls[first].time()), channel, stamp_ns),
        forall|j: int|
            first < j < calls.len() && (#[trigger] calls[j]).notes(channel, stamp_ns)
                ==> calls[j].time() < calls[first].time() + LOOPBACK_TTL_NS,
    ensures
        forall|i: int|
            0 <= i < states[k].len() && is_ours(#[trigger] states[k][i], channel, stamp_ns)
                ==> states[k][i].at_ns == calls[first].time(),
        calls[k - 1].time() < calls[first].time() + LOOPBACK_TTL_NS ==> among(
            states[k],
            channel,
            stamp_ns,
        ),
    decreases k,
{
    let call = calls[k - 1];
    let before = states[k - 1];
    let after = states[k];
    let now_ns = call.time();
    assert(calls[k - 1].leads(states[k - 1], states[k - 1 + 1]));
    let left = remembered(before, now_ns);
    let gone = lemma_remembered(before, now_ns);
    assert forall|i: int| 0 <= i < left.len() implies #[trigger] left[i] == before[gone + i] by {}
    if after != left {
        assert forall|i: int| 0 <= i < left.len() implies #[trigger] after[i] == left[i] by {
            assert(after.drop_last()[i] == left[i]);
        }
        assert(after[after.len() - 1] == after.last());
    }
    if k - 1 == first {
        assert forall|i: int|
            0 <= i < after.len() && is_ours(
                #[trigger] after[i],
                channel,
                stamp_ns,
            ) implies after[i].at_ns == calls[first].time() by {
            if i < left.len() {
                assert(is_ours(left[i], channel, stamp_ns));
            }
        }
    } else {
        lemma_noted(calls, states, channel, stamp_ns, first, k - 1);
        if now_ns < calls[first].time() + LOOPBACK_TTL_NS {
            assert(calls[k - 2].time() <= calls[k - 1].time());
            let i = choose|i: int|
                0 <= i < before.len() && is_ours(#[trigger] before[i], channel, stamp_ns);
            assert(!expired(before[i], now_ns));
            assert(left[i - gone] == before[i]);
            assert(is_ours(after[i - gone], channel, stamp_ns));
        } else {
            assert(!call.notes(channel, stamp_ns));
        }
        assert forall|i: int|
            0 <= i < after.len() && is_ours(
                #[trigger] after[i],
                channel,
                stamp_ns,
            ) implies after[i].at_ns == calls[first].time() by {
            if i < left.len() {
                assert(is_ours(before[gone + i], channel, stamp_ns));
            }
        }
    }
}

/// Over any history, a message that is noted anew, when it was not noted before or is forgotten again, is
/// claimed for exactly as long as that note is remembered: noting it again in that time does not make it
/// last longer, and claiming it does not use it up.
pub proof fn law_a_message_is_claimed_until_its_note_expires(
    calls: Seq<Call>,
    states: Seq<Seq<Published>>,
    channel: Seq<char>,
    stamp_ns: i64,
    first: int,
    now_ns: u64,
)
    requires
        history(calls, states),
        0 <= first < calls.len(),
        calls[first].notes(channel, stamp_ns),
        !among(remembered(states[first], calls[first].time()), channel, stamp_ns),
        forall|j: int|
            first < j < calls.len() && (#[trigger] calls[j]).notes(channel, stamp_ns)
                ==> calls[j].time() < calls[first].time() + LOOPBACK_TTL_NS,
        calls.last().time() <= now_ns,
    ensures
        among(remembered(states.last(), now_ns), channel, stamp_ns) <==> now_ns
            < calls[first].time() + LOOPBACK_TTL_NS,
{
    let order = states.last();
    let left = remembered(order, now_ns);
    let n = calls.len() as int;
    lemma_history_ascends(calls, states, n);
    lemma_noted(calls, states, channel, stamp_ns, first, n);
    let gone = lemma_remembered(order, now_ns);
    if now_ns < calls[first].time() + LOOPBACK_TTL_NS {
        let i = choose|i: int|
            0 <= i < order.len() && is_ours(#[trigger] order[i], channel, stamp_ns);
        law_published_messages_are_recognised(order, i, now_ns, channel, stamp_ns);
    } else {
        law_expired_messages_are_forgotten(order, now_ns);
        if among(left, channel, stamp_ns) {
            let i = choose|i: int|
                0 <= i < left.len() && is_ours(#[trigger] left[i], channel, stamp_ns);
            assert(left[i] == order[gone + i]);
            assert(!expired(left[i], now_ns));
        }
    }
}

/// In particular, a message is claimed from its first note on until that expires.
pub proof fn law_a_message_is_claimed_until_its_first_note_expires(
    calls: Seq<Call>,
    states: Seq<Seq<Published>>,
    channel: Seq<char>,
    stamp_ns: i64,
    first: int,
    now_ns: u64,
)
    requires
        history(calls, states),
        0 <= first < calls.len(),
        calls[first].notes(channel, stamp_ns),
        forall|j: int| 0 <= j < first ==> !(#[trigger] calls[j]).notes(channel, stamp_ns),
        forall|j: int|
            first < j < calls.len() && (#[trigger] calls[j]).notes(channel, stamp_ns)
                ==> calls[j].time() < calls[first].time() + LOOPBACK_TTL_NS,
        calls.last().time() <= now_ns,
    ensures
        among(remembered(states.last(), now_ns), channel, stamp_ns) <==> now_ns
            < calls[first].time() + LOOPBACK_TTL_NS,
{
    let order = states[first];
    lemma_not_noted(calls, states, channel, stamp_ns, first);
    if order.len() > 0 {
        law_published_messages_are_recognised(order, 0, calls[first].time(), channel, stamp_ns);
    }
    law_a_message_is_claimed_until_its_note_expires(
        calls,
        states,
        channel,
        stamp_ns,
        first,
        now_ns,
    );
}

/// Over any history, a message that never went out is never claimed.
pub proof fn law_a_message_that_never_went_out_is_never_claimed(
    calls: Seq<Call>,
    states: Seq<Seq<Published>>,
    channel: Seq<char>,
    stamp_ns: i64,
    now_ns: u64,
)
    requires
        history(calls, states),
        forall|j: int| 0 <= j < calls.len() ==> !(#[trigger] calls[j]).notes(channel, stamp_ns),
    ensures
        !among(remembered(states.last(), now_ns), channel, stamp_ns),
{
    let order = states.last();
    lemma_not_noted(calls, states, channel, stamp_ns, calls.len() as int);
    if order.len() > 0 {
        law_published_messages_are_recognised(order, 0, now_ns, channel, stamp_ns);
    }
}

/// A message is remembered for ten seconds from the time that it was published.
pub proof fn law_messages_are_remembered_for_ten_seconds(published: Published, now_ns: u64)
    ensures
        expired(published, now_ns) <==> now_ns - published.at_ns >= 10 * 1_000_000_000,
{
}

/// A message that was noted is among the remembered ones, with every other that has not expired, and
/// nothing else is.
pub proof fn law_noting_remembers_the_message(
    before: Seq<Published>,
    channel: Seq<char>,
    stamp_ns: i64,
    now_ns: u64,
    after: Seq<Published>,
    other_channel: Seq<char>,
    other_stamp_ns: i64,
)
    requires
        noted(before, channel, stamp_ns, now_ns, after),
    ensures
        among(after, channel, stamp_ns),
        (other_channel, other_stamp_ns) != (channel, stamp_ns) ==> (among(
            after,
            other_channel,
            other_stamp_ns,
        ) <==> among(remembered(before, now_ns), other_channel, other_stamp_ns)),
{
    let left = remembered(before, now_ns);
    if !among(left, channel, stamp_ns) {
        assert(is_ours(after[after.len() - 1], channel, stamp_ns));
        if among(left, other_channel, other_stamp_ns) {
            let i = choose|i: int|
                0 <= i < left.len() && is_ours(#[trigger] left[i], other_channel, other_stamp_ns);
            assert(after.drop_last()[i] == after[i]);
            assert(is_ours(after[i], other_channel, other_stamp_ns));
        }
        if among(after, other_channel, other_stamp_ns) && (other_channel, other_stamp_ns) != (
            channel,
            stamp_ns,
        ) {
            let i = choose|i: int|
                0 <= i < after.len() && is_ours(#[trigger] after[i], other_channel, other_stamp_ns);
            assert(i < after.len() - 1);
            assert(after.drop_last()[i] == after[i]);
            assert(is_ours(left[i], other_channel, other_stamp_ns));
        }
    }
}

} // verus!
