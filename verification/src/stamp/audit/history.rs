//! What the report of an audit says of all the messages that were inspected.
use super::{
    audit_report, checked_stamp, frame_line, frame_lines, is_root, lemma_roots, lists_roots, parents_of,
    roots_line, roots_of, stream_line, stream_lines, with_edge, with_edges, Audit, Spans, StreamStamps,
    Tree, Warning, AHEAD_TOLERANCE_NS,
};
use crate::cdr::messages::TransformStamped;
use crate::order::{law_with_name, lemma_rank_of_member, sorted, with_name, Names};
use crate::stamp::{Payload, Support};
use vstd::prelude::*;

verus! {

/// A message that is inspected.
pub struct Inspected {
    pub stream: usize,
    pub support: Support,
    pub payload: Payload,
    pub received_ns: i64,
    pub now_ns: u64,
}

impl Inspected {
    /// The stamp of the message, where it has one that is held against anything.
    pub open spec fn stamp(self) -> Option<int> {
        match (self.support, self.payload) {
            (Support::Fixed(offset), Payload::Wire(buf)) => checked_stamp(
                buf@,
                offset as int,
                self.received_ns as int,
            ),
            _ => None,
        }
    }

    /// The edges that the message adds to the frames.
    pub open spec fn edges(self) -> Seq<TransformStamped> {
        match (self.support, self.payload) {
            (Support::TfMessage, Payload::Tf(message)) => message.transforms@,
            _ => Seq::empty(),
        }
    }

    /// Whether the message is stamped further past its arrival than two clocks may disagree.
    pub open spec fn is_ahead(self) -> bool {
        self.stamp() matches Some(ns) && ns - self.received_ns > AHEAD_TOLERANCE_NS
    }

    /// The audit before and after the message.
    pub open spec fn leads(self, before: Audit, said: Seq<Warning>, after: Audit) -> bool {
        &&& before.admits(self.stream as int, self.support, self.payload)
        &&& after.wf()
        &&& Audit::inspected(
            before,
            after,
            said,
            self.stream as int,
            self.support,
            self.payload,
            self.received_ns as int,
            self.now_ns,
        )
    }
}

/// Whether messages lead an audit of these streams through these states, one before each message and one
/// at the end.
pub open spec fn audited(
    stream_names: Seq<String>,
    messages: Seq<Inspected>,
    said: Seq<Seq<Warning>>,
    audits: Seq<Audit>,
) -> bool {
    &&& said.len() == messages.len()
    &&& audits.len() == messages.len() + 1
    &&& audits[0].wf()
    &&& audits[0].fresh(stream_names)
    &&& forall|k: int|
        0 <= k < messages.len() ==> (#[trigger] messages[k]).leads(
            audits[k],
            said[k],
            audits[k + 1],
        )
}

/// The stamp of the last message of a stream that had one.
pub open spec fn last_stamp(messages: Seq<Inspected>, stream: int) -> Option<int>
    decreases messages.len(),
{
    if messages.len() == 0 {
        None
    } else if messages.last().stream == stream && messages.last().stamp() is Some {
        messages.last().stamp()
    } else {
        last_stamp(messages.drop_last(), stream)
    }
}

/// Whether the stamp of a message is behind the one before it in its stream.
pub open spec fn is_back(messages: Seq<Inspected>, k: int) -> bool {
    &&& messages[k].stamp() matches Some(ns)
    &&& last_stamp(messages.take(k), messages[k].stream as int) matches Some(previous)
    &&& ns < previous
}

/// All edges that the messages add to the frames.
pub open spec fn all_edges(messages: Seq<Inspected>) -> Seq<TransformStamped>
    decreases messages.len(),
{
    if messages.len() == 0 {
        Seq::empty()
    } else {
        all_edges(messages.drop_last()) + messages.last().edges()
    }
}

/// Whether each frame was seen under one parent only.
pub open spec fn single_parents(edges: Seq<TransformStamped>) -> bool {
    forall|i: int, j: int|
        0 <= i < edges.len() && 0 <= j < edges.len() && (#[trigger] edges[i]).child_frame_id@ == (
        #[trigger] edges[j]).child_frame_id@ ==> edges[i].header.frame_id@
            == edges[j].header.frame_id@
}

/// Whether a frame was seen as a parent, but never as a child.
pub open spec fn on_top(edges: Seq<TransformStamped>, frame: Seq<char>) -> bool {
    &&& exists|i: int| 0 <= i < edges.len() && (#[trigger] edges[i]).header.frame_id@ == frame
    &&& forall|i: int| 0 <= i < edges.len() ==> (#[trigger] edges[i]).child_frame_id@ != frame
}

/// Whether at most one frame is on top.
pub open spec fn one_top(edges: Seq<TransformStamped>) -> bool {
    forall|a: Seq<char>, b: Seq<char>| #[trigger]
        on_top(edges, a) && #[trigger] on_top(edges, b) ==> a == b
}

// --------------------------------------------------------------------- stamps
/// Whether what is known of a stream's stamps is what the messages say of them.
spec fn counted(stamps: StreamStamps, messages: Seq<Inspected>, stream: int) -> bool {
    &&& match (stamps.previous_ns, last_stamp(messages, stream)) {
        (Some(a), Some(b)) => a == b,
        (None, None) => true,
        _ => false,
    }
    &&& stamps.ahead > 0 <==> exists|k: int|
        0 <= k < messages.len() && (#[trigger] messages[k]).stream == stream
            && messages[k].is_ahead()
    &&& stamps.backwards > 0 <==> exists|k: int|
        0 <= k < messages.len() && (#[trigger] messages[k]).stream == stream && is_back(messages, k)
}

/// One more message keeps what is known of a stream in step, whether it is of that stream or not.
proof fn lemma_counted(
    before: StreamStamps,
    messages: Seq<Inspected>,
    message: Inspected,
    stream: int,
    after: StreamStamps,
)
    requires
        counted(before, messages, stream),
        message.stamp() is Some ==> before.ahead < u64::MAX && before.backwards < u64::MAX,
        message.stream == stream && message.stamp() is Some ==> after == before.seen(
            message.stamp()->0,
            message.received_ns as int,
        ),
        !(message.stream == stream && message.stamp() is Some) ==> after == before,
        message.stamp() matches Some(ns) ==> i64::MIN <= ns <= i64::MAX,
    ensures
        counted(after, messages.push(message), stream),
{
    let more = messages.push(message);
    let n = messages.len() as int;
    assert(more.drop_last() =~= messages);
    assert(more.last() == message);
    assert(more.take(n) =~= messages);
    assert(more[n] == message);
    assert forall|k: int| 0 <= k < n implies #[trigger] more[k] == messages[k] && is_back(more, k)
        == is_back(messages, k) by {
        assert(more.take(k) =~= messages.take(k));
    }
    assert(message.stream == stream ==> (is_back(more, n) <==> (message.stamp() is Some
        && before.backstep(message.stamp()->0) > 0)));
    if before.ahead > 0 {
        let k = choose|k: int|
            0 <= k < messages.len() && (#[trigger] messages[k]).stream == stream
                && messages[k].is_ahead();
        assert(more[k].stream == stream && more[k].is_ahead());
    }
    if before.backwards > 0 {
        let k = choose|k: int|
            0 <= k < messages.len() && (#[trigger] messages[k]).stream == stream && is_back(
                messages,
                k,
            );
        assert(more[k].stream == stream && is_back(more, k));
    }
    if exists|k: int|
        0 <= k < more.len() && (#[trigger] more[k]).stream == stream && more[k].is_ahead() {
        let k = choose|k: int|
            0 <= k < more.len() && (#[trigger] more[k]).stream == stream && more[k].is_ahead();
        if k < n {
            assert(messages[k].stream == stream && messages[k].is_ahead());
        }
    }
    if exists|k: int|
        0 <= k < more.len() && (#[trigger] more[k]).stream == stream && is_back(more, k) {
        let k = choose|k: int|
            0 <= k < more.len() && (#[trigger] more[k]).stream == stream && is_back(more, k);
        if k < n {
            assert(messages[k].stream == stream && is_back(messages, k));
        }
    }
}

// ----------------------------------------------------------------------- tree
proof fn lemma_edges_add_up(tree: Tree, first: Seq<TransformStamped>, second: Seq<TransformStamped>)
    ensures
        with_edges(with_edges(tree, first), second) == with_edges(tree, first + second),
    decreases second.len(),
{
    let both = first + second;
    if second.len() == 0 {
        assert(both =~= first);
    } else {
        lemma_edges_add_up(tree, first, second.drop_last());
        assert(both.drop_last() =~= first + second.drop_last());
    }
}

/// Whether a tree holds some edges and no others.
spec fn grown_from(tree: Tree, edges: Seq<TransformStamped>) -> bool {
    &&& forall|child: Seq<char>| #[trigger]
        tree.contains_key(child) <==> exists|i: int|
            0 <= i < edges.len() && (#[trigger] edges[i]).child_frame_id@ == child
    &&& forall|child: Seq<char>| #[trigger] tree.contains_key(child) ==> sorted(tree[child])
    &&& forall|child: Seq<char>, parent: Seq<char>|
        tree.contains_key(child) ==> (#[trigger] tree[child].contains(parent) <==> exists|i: int|
            0 <= i < edges.len() && (#[trigger] edges[i]).child_frame_id@ == child
                && edges[i].header.frame_id@ == parent)
}

proof fn lemma_grown(edges: Seq<TransformStamped>)
    ensures
        grown_from(with_edges(Map::empty(), edges), edges),
    decreases edges.len(),
{
    if edges.len() > 0 {
        let fewer = edges.drop_last();
        let edge = edges.last();
        let n = edges.len() - 1;
        let before = with_edges(Map::empty(), fewer);
        let tree = with_edges(Map::empty(), edges);
        lemma_grown(fewer);
        assert forall|i: int| 0 <= i < n implies #[trigger] edges[i] == fewer[i] by {}
        let name = edge.child_frame_id@;
        let parent = edge.header.frame_id@;
        law_with_name(parents_of(before, name), parent);
        assert forall|child: Seq<char>| #[trigger] tree.contains_key(child) <==> exists|i: int|
            0 <= i < edges.len() && (#[trigger] edges[i]).child_frame_id@ == child by {
            if before.contains_key(child) {
                let i = choose|i: int|
                    0 <= i < fewer.len() && (#[trigger] fewer[i]).child_frame_id@ == child;
                assert(edges[i].child_frame_id@ == child);
            }
            if child == name {
                assert(edges[n].child_frame_id@ == child);
            }
            if exists|i: int|
                0 <= i < edges.len() && (#[trigger] edges[i]).child_frame_id@ == child {
                let i = choose|i: int|
                    0 <= i < edges.len() && (#[trigger] edges[i]).child_frame_id@ == child;
                if i < n {
                    assert(fewer[i].child_frame_id@ == child);
                }
            }
        }
        assert forall|child: Seq<char>, other: Seq<char>| tree.contains_key(child) implies (
        #[trigger] tree[child].contains(other) <==> exists|i: int|
            0 <= i < edges.len() && (#[trigger] edges[i]).child_frame_id@ == child
                && edges[i].header.frame_id@ == other) by {
            lemma_parent(before, fewer, edge, child, other);
            if tree[child].contains(other) {
                if parents_of(before, child).contains(other) {
                    let i = choose|i: int|
                        0 <= i < fewer.len() && (#[trigger] fewer[i]).child_frame_id@ == child
                            && fewer[i].header.frame_id@ == other;
                    assert(edges[i].child_frame_id@ == child && edges[i].header.frame_id@ == other);
                } else {
                    assert(edges[n].child_frame_id@ == child && edges[n].header.frame_id@ == other);
                }
            }
            if exists|i: int|
                0 <= i < edges.len() && (#[trigger] edges[i]).child_frame_id@ == child
                    && edges[i].header.frame_id@ == other {
                let i = choose|i: int|
                    0 <= i < edges.len() && (#[trigger] edges[i]).child_frame_id@ == child
                        && edges[i].header.frame_id@ == other;
                if i < n {
                    assert(fewer[i].child_frame_id@ == child && fewer[i].header.frame_id@ == other);
                }
            }
        }
    }
}

/// The parents that a frame has once there is one more edge.
proof fn lemma_parent(
    before: Tree,
    fewer: Seq<TransformStamped>,
    edge: TransformStamped,
    child: Seq<char>,
    other: Seq<char>,
)
    requires
        grown_from(before, fewer),
        with_edge(before, edge).contains_key(child),
    ensures
        with_edge(before, edge)[child].contains(other) <==> (parents_of(before, child).contains(other)
            || (child == edge.child_frame_id@ && other == edge.header.frame_id@)),
        parents_of(before, child).contains(other) <==> exists|i: int|
            0 <= i < fewer.len() && (#[trigger] fewer[i]).child_frame_id@ == child
                && fewer[i].header.frame_id@ == other,
{
    let name = edge.child_frame_id@;
    law_with_name(parents_of(before, name), edge.header.frame_id@);
    if !before.contains_key(child) {
        assert(!parents_of(before, child).contains(other));
        if exists|i: int|
            0 <= i < fewer.len() && (#[trigger] fewer[i]).child_frame_id@ == child
                && fewer[i].header.frame_id@ == other {
            let i = choose|i: int|
                0 <= i < fewer.len() && (#[trigger] fewer[i]).child_frame_id@ == child
                    && fewer[i].header.frame_id@ == other;
            assert(fewer[i].child_frame_id@ == child);
        }
    } else {
        assert(before[child].contains(other) <==> exists|i: int|
            0 <= i < fewer.len() && (#[trigger] fewer[i]).child_frame_id@ == child
                && fewer[i].header.frame_id@ == other);
    }
}

/// The roots of a tree are the frames on top.
proof fn lemma_on_top(tree: Tree, edges: Seq<TransformStamped>, frame: Seq<char>)
    requires
        grown_from(tree, edges),
    ensures
        is_root(tree, frame) <==> on_top(edges, frame),
{
    if is_root(tree, frame) {
        let child = choose|child: Seq<char>| #[trigger]
            tree.contains_key(child) && tree[child].contains(frame);
        assert(tree[child].contains(frame));
        let i = choose|i: int|
            0 <= i < edges.len() && (#[trigger] edges[i]).child_frame_id@ == child
                && edges[i].header.frame_id@ == frame;
        assert(edges[i].header.frame_id@ == frame);
        assert(!tree.contains_key(frame));
    }
    if on_top(edges, frame) {
        let i = choose|i: int|
            0 <= i < edges.len() && (#[trigger] edges[i]).header.frame_id@ == frame;
        let child = edges[i].child_frame_id@;
        assert(tree.contains_key(child));
        assert(tree[child].contains(frame));
        assert(!tree.contains_key(frame));
    }
}

/// The frames on top among the parents of the first edges, in ascending order.
proof fn lemma_list_of_tops(edges: Seq<TransformStamped>, n: int) -> (list: Seq<Seq<char>>)
    requires
        0 <= n <= edges.len(),
    ensures
        sorted(list),
        forall|frame: Seq<char>| #[trigger]
            list.contains(frame) <==> on_top(edges, frame) && exists|i: int|
                0 <= i < n && (#[trigger] edges[i]).header.frame_id@ == frame,
    decreases n,
{
    if n == 0 {
        Seq::empty()
    } else {
        let fewer = lemma_list_of_tops(edges, n - 1);
        let name = edges[n - 1].header.frame_id@;
        law_with_name(fewer, name);
        let list = if on_top(edges, name) {
            with_name(fewer, name)
        } else {
            fewer
        };
        assert forall|frame: Seq<char>| #[trigger]
            list.contains(frame) <==> on_top(edges, frame) && exists|i: int|
                0 <= i < n && (#[trigger] edges[i]).header.frame_id@ == frame by {
            if fewer.contains(frame) {
                let i = choose|i: int|
                    0 <= i < n - 1 && (#[trigger] edges[i]).header.frame_id@ == frame;
                assert(0 <= i < n && edges[i].header.frame_id@ == frame);
            }
            if exists|i: int| 0 <= i < n && (#[trigger] edges[i]).header.frame_id@ == frame {
                let i = choose|i: int|
                    0 <= i < n && (#[trigger] edges[i]).header.frame_id@ == frame;
                if i < n - 1 {
                    assert(0 <= i < n - 1 && edges[i].header.frame_id@ == frame);
                }
            }
            if on_top(edges, name) {
                assert(with_name(fewer, name).contains(frame) <==> (fewer.contains(frame) || frame
                    == name));
            }
        }
        list
    }
}

proof fn lemma_roots_are_on_top(tree: Tree, edges: Seq<TransformStamped>)
    requires
        grown_from(tree, edges),
    ensures
        lists_roots(tree, roots_of(tree)),
        roots_of(tree).len() <= 1 <==> one_top(edges),
{
    let list = lemma_list_of_tops(edges, edges.len() as int);
    assert forall|frame: Seq<char>| #[trigger] list.contains(frame) <==> is_root(tree, frame) by {
        lemma_on_top(tree, edges, frame);
    }
    lemma_roots(tree, list);
    lemma_few(list);
    assert forall|frame: Seq<char>| #[trigger] list.contains(frame) <==> on_top(edges, frame) by {
        lemma_on_top(tree, edges, frame);
    }
    if one_top(edges) {
        assert forall|a: Seq<char>, b: Seq<char>| #[trigger]
            list.contains(a) && #[trigger] list.contains(b) implies a == b by {
            assert(on_top(edges, a) && on_top(edges, b));
        }
    }
    if list.len() <= 1 {
        assert forall|a: Seq<char>, b: Seq<char>| #[trigger]
            on_top(edges, a) && #[trigger] on_top(edges, b) implies a == b by {
            assert(list.contains(a) && list.contains(b));
        }
    }
}

/// An ascending list holds at most one name exactly when no two names in it differ.
proof fn lemma_few(list: Seq<Seq<char>>)
    requires
        sorted(list),
    ensures
        list.len() <= 1 <==> forall|a: Seq<char>, b: Seq<char>| #[trigger]
            list.contains(a) && #[trigger] list.contains(b) ==> a == b,
{
    if list.len() > 1 {
        assert(list.contains(list[0]));
        assert(list.contains(list[1]));
        lemma_rank_of_member(list, 0);
        lemma_rank_of_member(list, 1);
    }
}

/// Frames have one parent each exactly when no list of parents is longer.
proof fn lemma_single_parents(tree: Tree, edges: Seq<TransformStamped>)
    requires
        grown_from(tree, edges),
    ensures
        single_parents(edges) <==> forall|child: Seq<char>| #[trigger]
            tree.contains_key(child) ==> tree[child].len() <= 1,
{
    if single_parents(edges) {
        assert forall|child: Seq<char>| #[trigger] tree.contains_key(child) implies tree[child].len()
            <= 1 by {
            lemma_few(tree[child]);
            assert forall|a: Seq<char>, b: Seq<char>| #[trigger]
                tree[child].contains(a) && #[trigger] tree[child].contains(b) implies a == b by {
                let i = choose|i: int|
                    0 <= i < edges.len() && (#[trigger] edges[i]).child_frame_id@ == child
                        && edges[i].header.frame_id@ == a;
                let j = choose|j: int|
                    0 <= j < edges.len() && (#[trigger] edges[j]).child_frame_id@ == child
                        && edges[j].header.frame_id@ == b;
                assert(edges[i].header.frame_id@ == edges[j].header.frame_id@);
            }
        }
    }
    if forall|child: Seq<char>| #[trigger] tree.contains_key(child) ==> tree[child].len() <= 1 {
        assert forall|i: int, j: int|
            0 <= i < edges.len() && 0 <= j < edges.len() && (#[trigger] edges[i]).child_frame_id@
                == (#[trigger] edges[j]).child_frame_id@ implies edges[i].header.frame_id@
            == edges[j].header.frame_id@ by {
            let child = edges[i].child_frame_id@;
            assert(tree.contains_key(child));
            lemma_few(tree[child]);
            assert(tree[child].contains(edges[i].header.frame_id@));
            assert(tree[child].contains(edges[j].header.frame_id@));
        }
    }
}

// -------------------------------------------------------------------- history
proof fn lemma_history(
    stream_names: Seq<String>,
    messages: Seq<Inspected>,
    said: Seq<Seq<Warning>>,
    audits: Seq<Audit>,
    k: int,
)
    requires
        audited(stream_names, messages, said, audits),
        0 <= k <= messages.len(),
    ensures
        audits[k].wf(),
        audits[k].streams@.len() == stream_names.len(),
        audits[k].tree() == with_edges(Map::empty(), all_edges(messages.take(k))),
        forall|i: int|
            0 <= i < stream_names.len() ==> counted(
                #[trigger] audits[k].streams@[i],
                messages.take(k),
                i,
            ),
    decreases k,
{
    if k == 0 {
        assert(messages.take(0) =~= Seq::empty());
    } else {
        lemma_history(stream_names, messages, said, audits, k - 1);
        let message = messages[k - 1];
        let so_far = messages.take(k - 1);
        let before = audits[k - 1];
        let after = audits[k];
        assert(messages[k - 1].leads(audits[k - 1], said[k - 1], audits[k - 1 + 1]));
        assert(messages.take(k) =~= so_far.push(message));
        assert(messages.take(k).drop_last() =~= so_far);
        lemma_edges_add_up(Map::empty(), all_edges(so_far), message.edges());
        assert forall|i: int| 0 <= i < stream_names.len() implies counted(
            #[trigger] after.streams@[i],
            messages.take(k),
            i,
        ) by {
            assert(counted(before.streams@[i], so_far, i));
            lemma_counted(before.streams@[i], so_far, message, i, after.streams@[i]);
        }
    }
}

// --------------------------------------------------------------------- report
proof fn lemma_no_stream_lines(streams: Seq<StreamStamps>, spans: Seq<Spans>)
    requires
        spans.len() == streams.len(),
    ensures
        stream_lines(streams, spans).len() == 0 <==> forall|i: int|
            0 <= i < streams.len() ==> (#[trigger] streams[i]).ahead == 0 && streams[i].backwards
                == 0,
    decreases streams.len(),
{
    if streams.len() > 0 {
        let rest = streams.drop_last();
        lemma_no_stream_lines(rest, spans.drop_last());
        reveal_strlit("  ");
        assert(stream_line(streams.last(), spans.last()).len() == 0 <==> streams.last().ahead == 0
            && streams.last().backwards == 0);
        assert forall|i: int| 0 <= i < rest.len() implies #[trigger] rest[i] == streams[i] by {}
        if forall|i: int|
            0 <= i < streams.len() ==> (#[trigger] streams[i]).ahead == 0 && streams[i].backwards
                == 0 {
            assert forall|i: int| 0 <= i < rest.len() implies (#[trigger] rest[i]).ahead == 0
                && rest[i].backwards == 0 by {
                assert(rest[i] == streams[i]);
            }
            assert(streams[streams.len() - 1].ahead == 0);
        }
        if stream_lines(streams, spans).len() == 0 {
            assert forall|i: int| 0 <= i < streams.len() implies (#[trigger] streams[i]).ahead == 0
                && streams[i].backwards == 0 by {
                if i < rest.len() {
                    assert(rest[i].ahead == 0);
                }
            }
        }
    }
}

proof fn lemma_no_frame_lines(children: Seq<Seq<char>>, parents: Seq<Names>)
    requires
        parents.len() == children.len(),
    ensures
        frame_lines(children, parents).len() == 0 <==> forall|i: int|
            0 <= i < parents.len() ==> (#[trigger] parents[i])@.len() <= 1,
    decreases children.len(),
{
    if children.len() > 0 {
        let rest = parents.drop_last();
        lemma_no_frame_lines(children.drop_last(), rest);
        reveal_strlit("  ");
        assert(frame_line(children.last(), parents.last()@).len() == 0 <==> parents.last()@.len()
            <= 1);
        assert forall|i: int| 0 <= i < rest.len() implies #[trigger] rest[i] == parents[i] by {}
        if forall|i: int| 0 <= i < parents.len() ==> (#[trigger] parents[i])@.len() <= 1 {
            assert forall|i: int| 0 <= i < rest.len() implies (#[trigger] rest[i])@.len() <= 1 by {
                assert(rest[i] == parents[i]);
            }
            assert(parents[parents.len() - 1]@.len() <= 1);
        }
        if frame_lines(children, parents).len() == 0 {
            assert forall|i: int| 0 <= i < parents.len() implies (#[trigger] parents[i])@.len()
                <= 1 by {
                if i < rest.len() {
                    assert(rest[i]@.len() <= 1);
                }
            }
        }
    }
}

/// When the report of an audit is empty.
proof fn lemma_empty_report(audit: Audit, spans: Seq<Spans>)
    requires
        audit.wf(),
        spans.len() == audit.streams@.len(),
    ensures
        audit_report(audit, spans).len() == 0 <==> {
            &&& forall|i: int|
                0 <= i < audit.streams@.len() ==> (#[trigger] audit.streams@[i]).ahead == 0
                    && audit.streams@[i].backwards == 0
            &&& forall|child: Seq<char>| #[trigger]
                audit.tree().contains_key(child) ==> audit.tree()[child].len() <= 1
            &&& roots_of(audit.tree()).len() <= 1
        },
{
    let tree = audit.tree();
    let keys = audit.parents.keys@;
    let vals = audit.parents.vals@;
    let frames = frame_lines(keys, vals);
    let top = roots_line(roots_of(tree));
    lemma_no_stream_lines(audit.streams@, spans);
    lemma_no_frame_lines(keys, vals);
    reveal_strlit("  ");
    reveal_strlit("stamps that cannot be right:\n");
    reveal_strlit("tf does not describe one tree:\n");
    assert(top.len() == 0 <==> roots_of(tree).len() <= 1);
    if forall|i: int| 0 <= i < vals.len() ==> (#[trigger] vals[i])@.len() <= 1 {
        assert forall|child: Seq<char>| #[trigger] tree.contains_key(child) implies tree[child].len()
            <= 1 by {
            let i = choose|i: int| 0 <= i < keys.len() && keys[i] == child;
            lemma_rank_of_member(keys, i);
            assert(vals[i]@.len() <= 1);
        }
    }
    if forall|child: Seq<char>| #[trigger] tree.contains_key(child) ==> tree[child].len() <= 1 {
        assert forall|i: int| 0 <= i < vals.len() implies (#[trigger] vals[i])@.len() <= 1 by {
            lemma_rank_of_member(keys, i);
            assert(keys.contains(keys[i]));
            assert(tree.contains_key(keys[i]));
        }
    }
    assert((frames + top).len() == frames.len() + top.len());
}

/// The report is empty exactly when there is nothing to report: no stamp was too far past its arrival,
/// none was behind the one before it in its stream, no frame was seen under two parents, and at most one
/// frame was seen as a parent but never as a child.
pub proof fn law_the_report_is_empty_when_nothing_is_wrong(
    stream_names: Seq<String>,
    messages: Seq<Inspected>,
    said: Seq<Seq<Warning>>,
    audits: Seq<Audit>,
    spans: Seq<Spans>,
)
    requires
        audited(stream_names, messages, said, audits),
        spans.len() == stream_names.len(),
    ensures
        audit_report(audits.last(), spans).len() == 0 <==> {
            &&& forall|k: int| 0 <= k < messages.len() ==> !(#[trigger] messages[k]).is_ahead()
            &&& forall|k: int| 0 <= k < messages.len() ==> !#[trigger] is_back(messages, k)
            &&& single_parents(all_edges(messages))
            &&& one_top(all_edges(messages))
        },
{
    let n = messages.len() as int;
    let audit = audits.last();
    let edges = all_edges(messages);
    let streams = audit.streams@;
    lemma_history(stream_names, messages, said, audits, n);
    assert(messages.take(n) =~= messages);
    lemma_empty_report(audit, spans);
    lemma_grown(edges);
    lemma_single_parents(audit.tree(), edges);
    lemma_roots_are_on_top(audit.tree(), edges);
    let clean = forall|i: int|
        0 <= i < streams.len() ==> (#[trigger] streams[i]).ahead == 0 && streams[i].backwards == 0;
    if clean {
        assert forall|k: int| 0 <= k < n implies !(#[trigger] messages[k]).is_ahead() && !is_back(
            messages,
            k,
        ) by {
            lemma_history(stream_names, messages, said, audits, k);
            assert(messages[k].leads(audits[k], said[k], audits[k + 1]));
            if messages[k].stamp() is Some {
                let i = messages[k].stream as int;
                assert(counted(streams[i], messages, i));
            }
        }
    }
    if forall|k: int|
        0 <= k < n ==> !(#[trigger] messages[k]).is_ahead() && !is_back(messages, k) {
        assert forall|i: int| 0 <= i < streams.len() implies (#[trigger] streams[i]).ahead == 0
            && streams[i].backwards == 0 by {
            assert(counted(streams[i], messages, i));
        }
    }
}

} // verus!
