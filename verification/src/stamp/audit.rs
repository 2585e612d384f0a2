//! Saying out loud what a recording claims that cannot be true.
pub mod history;
use super::{on_same_clock, read_nanos, same_clock, stamp_at, Payload, Support};
use crate::cdr::messages::{TFMessage, TransformStamped};
use crate::order::{
    law_order_is_determined_by_members, law_with_name, lemma_rank_of_member, lemma_rank_splits,
    sorted, with_name, Names, Table,
};
use crate::text::{decimal, found, join, joined, lemma_found, lemma_found_whole, push_decimal};
use vstd::prelude::*;

verus! {

/// How long a defect stays quiet after being warned about.
///
/// Every defect these checks look for is a property of a stream or of a frame tree, so once one
/// message trips it every later message trips it too. Each warning fires on first sight and then at
/// most once a window, carrying the count it swallowed in between.
pub const WARN_EVERY_NS: u64 = 5_000_000_000;

/// A payload stamp this far past the recorder's delivery time is two clocks disagreeing rather than
/// one being wrong: under a single period of a 100 Hz sensor, "before" and "after" are not
/// meaningfully different.
pub const AHEAD_TOLERANCE_NS: i64 = 10_000_000;

// ----------------------------------------------------------------- throttling
/// Lets one warning through and holds back those that follow it closely.
#[derive(Clone, Copy, Debug, PartialEq, Eq, Structural)]
pub struct Throttle {
    /// When a warning was last let through.
    pub last: Option<u64>,
    /// How many were held back since.
    pub suppressed: u64,
}

impl Throttle {
    /// Whether a warning at `now` would be held back.
    pub open spec fn quiet(self, now: u64) -> bool {
        self.last matches Some(last) && now < last + WARN_EVERY_NS
    }

    /// The throttle after `events` warnings at one time. At most the first of them gets through.
    pub open spec fn after(self, events: nat, now: u64) -> Throttle {
        if events == 0 {
            self
        } else if self.quiet(now) {
            Throttle { suppressed: (self.suppressed + events) as u64, ..self }
        } else {
            Throttle { last: Some(now), suppressed: (events - 1) as u64 }
        }
    }

    pub fn new() -> (r: Self)
        ensures
            r == (Throttle { last: None, suppressed: 0 }),
    {
        Throttle { last: None, suppressed: 0 }
    }

    /// `Some(n)` means print now, having swallowed `n` since the previous print.
    pub fn ready(&mut self, now: u64) -> (r: Option<u64>)
        requires
            old(self).suppressed < u64::MAX,
        ensures
            *final(self) == old(self).after(1, now),
            r == (if old(self).quiet(now) {
                None
            } else {
                Some(old(self).suppressed)
            }),
    {
        match self.last {
            Some(last) => {
                if now < last || now - last < WARN_EVERY_NS {
                    self.suppressed = self.suppressed + 1;
                    return None;
                }
            },
            None => {},
        }
        let swallowed: u64 = self.suppressed;
        self.last = Some(now);
        self.suppressed = 0;
        Some(swallowed)
    }
}

/// What a warning adds about those that were held back before it.
pub open spec fn and_more_text(suppressed: u64) -> Seq<char> {
    if suppressed == 0 {
        Seq::empty()
    } else {
        " ("@ + decimal(suppressed as nat) + " more since the last warning)"@
    }
}

pub fn and_more(suppressed: u64) -> (r: String)
    ensures
        r@ == and_more_text(suppressed),
{
    if suppressed == 0 {
        return String::new();
    }
    let mut text: String = " (".to_owned();
    push_decimal(&mut text, suppressed);
    text.append(" more since the last warning)");
    text
}

/// Something that a recording claims and that cannot be true.
#[derive(Debug, PartialEq, Eq)]
pub enum Warning {
    /// A stream's message was stamped after the recorder received it.
    Ahead { name: String, ahead_ns: i64, suppressed: u64 },
    /// A stream's stamps went back.
    Backwards { name: String, backstep_ns: i64, suppressed: u64 },
    /// A frame has more than one parent.
    Doubled { child: String, parents: String, suppressed: u64 },
    /// The frames do not form one tree.
    Split { count: usize, roots: String, suppressed: u64 },
}

impl Warning {
    /// What the warning reads like; `span` is the length of time that it speaks of, if any.
    pub open spec fn text(&self, span: Seq<char>) -> Seq<char> {
        match self {
            Warning::Ahead { name, ahead_ns, suppressed } => "warning: "@ + name@ + " is stamped "@
                + span + " after the recorder received it"@ + and_more_text(*suppressed),
            Warning::Backwards { name, backstep_ns, suppressed } => "warning: "@ + name@
                + " stamps went back "@ + span + " while its arrivals moved forward"@
                + and_more_text(*suppressed),
            Warning::Doubled { child, parents, suppressed } => "warning: tf gives "@ + child@
                + " more than one parent ("@ + parents@ + ")"@ + and_more_text(*suppressed),
            Warning::Split { count, roots, suppressed } => "warning: tf holds "@ + decimal(
                *count as nat,
            ) + " separate trees, rooted at "@ + roots@ + and_more_text(*suppressed),
        }
    }

    /// The length of time that the warning speaks of.
    pub fn span_ns(&self) -> (r: Option<i64>)
        ensures
            r == (match self {
                Warning::Ahead { ahead_ns, .. } => Some(*ahead_ns),
                Warning::Backwards { backstep_ns, .. } => Some(*backstep_ns),
                _ => None,
            }),
    {
        match self {
            Warning::Ahead { ahead_ns, .. } => Some(*ahead_ns),
            Warning::Backwards { backstep_ns, .. } => Some(*backstep_ns),
            _ => None,
        }
    }

    pub fn message(&self, span: &str) -> (r: String)
        ensures
            r@ == self.text(span@),
    {
        let mut text: String = "warning: ".to_owned();
        match self {
            Warning::Ahead { name, suppressed, .. } => {
                text.append(name.as_str());
                text.append(" is stamped ");
                text.append(span);
                text.append(" after the recorder received it");
                text.append(and_more(*suppressed).as_str());
            },
            Warning::Backwards { name, suppressed, .. } => {
                text.append(name.as_str());
                text.append(" stamps went back ");
                text.append(span);
                text.append(" while its arrivals moved forward");
                text.append(and_more(*suppressed).as_str());
            },
            Warning::Doubled { child, parents, suppressed } => {
                text = "warning: tf gives ".to_owned();
                text.append(child.as_str());
                text.append(" more than one parent (");
                text.append(parents.as_str());
                text.append(")");
                text.append(and_more(*suppressed).as_str());
            },
            Warning::Split { count, roots, suppressed } => {
                text = "warning: tf holds ".to_owned();
                push_decimal(&mut text, *count as u64);
                text.append(" separate trees, rooted at ");
                text.append(roots.as_str());
                text.append(and_more(*suppressed).as_str());
            },
        }
        text
    }
}

// --------------------------------------------------------------------- stamps
/// What is known of the stamps of one stream.
#[derive(Debug, PartialEq, Eq)]
pub struct StreamStamps {
    pub name: String,
    pub previous_ns: Option<i64>,
    pub ahead: u64,
    pub worst_ahead_ns: i64,
    pub backwards: u64,
    pub worst_backstep_ns: i64,
}

pub open spec fn larger(a: int, b: int) -> int {
    if a < b {
        b
    } else {
        a
    }
}

impl StreamStamps {
    /// Whether the last stamp is one that a stamp can hold.
    pub open spec fn wf(self) -> bool {
        self.previous_ns matches Some(ns) ==> -4_000_000_000_000_000_000 <= ns
            <= 4_000_000_000_000_000_000
    }

    /// How far a stamp steps back behind the last one.
    pub open spec fn backstep(self, stamp_ns: int) -> int {
        match self.previous_ns {
            Some(previous) => if stamp_ns < previous {
                previous - stamp_ns
            } else {
                0
            },
            None => 0,
        }
    }

    /// What is known once one more stamp was seen.
    pub open spec fn seen(self, stamp_ns: int, received_ns: int) -> StreamStamps {
        let ahead_ns = stamp_ns - received_ns;
        let backstep_ns = self.backstep(stamp_ns);
        StreamStamps {
            previous_ns: Some(stamp_ns as i64),
            ahead: if ahead_ns > AHEAD_TOLERANCE_NS {
                (self.ahead + 1) as u64
            } else {
                self.ahead
            },
            worst_ahead_ns: if ahead_ns > AHEAD_TOLERANCE_NS {
                larger(self.worst_ahead_ns as int, ahead_ns) as i64
            } else {
                self.worst_ahead_ns
            },
            backwards: if backstep_ns > 0 {
                (self.backwards + 1) as u64
            } else {
                self.backwards
            },
            worst_backstep_ns: if backstep_ns > 0 {
                larger(self.worst_backstep_ns as int, backstep_ns) as i64
            } else {
                self.worst_backstep_ns
            },
            ..self
        }
    }
}

// ----------------------------------------------------------------------- tree
/// The parents that each frame was seen under.
pub type Tree = Map<Seq<char>, Seq<Seq<char>>>;

/// The parents that a frame was seen under.
pub open spec fn parents_of(tree: Tree, child: Seq<char>) -> Seq<Seq<char>> {
    if tree.contains_key(child) {
        tree[child]
    } else {
        Seq::empty()
    }
}

/// A tree with one more edge.
pub open spec fn with_edge(tree: Tree, transform: TransformStamped) -> Tree {
    let child = transform.child_frame_id@;
    tree.insert(child, with_name(parents_of(tree, child), transform.header.frame_id@))
}

/// A tree with more edges.
pub open spec fn with_edges(tree: Tree, transforms: Seq<TransformStamped>) -> Tree
    decreases transforms.len(),
{
    if transforms.len() == 0 {
        tree
    } else {
        with_edge(with_edges(tree, transforms.drop_last()), transforms.last())
    }
}

/// Whether an edge gives a frame that has a parent another one.
pub open spec fn doubles(tree: Tree, transform: TransformStamped) -> bool {
    let parents = parents_of(tree, transform.child_frame_id@);
    parents.len() > 0 && !parents.contains(transform.header.frame_id@)
}

/// Which of some edges give a frame that has a parent another one.
pub open spec fn doublings(tree: Tree, transforms: Seq<TransformStamped>) -> Seq<int>
    decreases transforms.len(),
{
    if transforms.len() == 0 {
        Seq::empty()
    } else {
        let earlier = doublings(tree, transforms.drop_last());
        if doubles(with_edges(tree, transforms.drop_last()), transforms.last()) {
            earlier.push(transforms.len() - 1)
        } else {
            earlier
        }
    }
}

/// Whether a frame has been seen as a parent but never as a child.
pub open spec fn is_root(tree: Tree, frame: Seq<char>) -> bool {
    &&& !tree.contains_key(frame)
    &&& exists|child: Seq<char>| #[trigger]
        tree.contains_key(child) && tree[child].contains(frame)
}

/// Whether a list holds the roots of a tree, in ascending order.
pub open spec fn lists_roots(tree: Tree, list: Seq<Seq<char>>) -> bool {
    &&& sorted(list)
    &&& forall|frame: Seq<char>| #[trigger] list.contains(frame) <==> is_root(tree, frame)
}

/// The roots of a tree, in ascending order. One tree has exactly one.
pub open spec fn roots_of(tree: Tree) -> Seq<Seq<char>> {
    choose|list: Seq<Seq<char>>| lists_roots(tree, list)
}

/// There is only one list of the roots of a tree.
pub proof fn lemma_roots(tree: Tree, list: Seq<Seq<char>>)
    requires
        lists_roots(tree, list),
    ensures
        list == roots_of(tree),
{
    let other = roots_of(tree);
    assert(lists_roots(tree, other));
    assert forall|frame: Seq<char>| list.contains(frame) <==> other.contains(frame) by {
        assert(list.contains(frame) <==> is_root(tree, frame));
        assert(other.contains(frame) <==> is_root(tree, frame));
    }
    law_order_is_determined_by_members(list, other);
}

/// Frames as they are listed in a sentence.
pub open spec fn listed_text(frames: Seq<Seq<char>>) -> Seq<char> {
    joined(frames, ", "@)
}

pub fn listed(frames: &Names) -> (r: String)
    ensures
        r@ == listed_text(frames@),
{
    join(&frames.items, ", ")
}

/// Says out loud what a recording claims that cannot be true.
///
/// Nothing here is repaired: a replay puts out what the recording holds. But each of these changes
/// what a downstream node's own timing and pose come out to, and all three are invisible from the
/// subscriber's side.
///
/// - A payload stamped *after* the recorder took delivery describes a message that had not been sent
///   yet.
/// - A payload stamp walking backwards while arrivals walk forwards is a clock that is not monotonic.
///   Detected by order, not by magnitude: the bad stamps have no characteristic offset to threshold
///   against.
/// - A `tf` stream that is not one tree. TF resolves a pose by walking a frame to its root, so a frame
///   with two parents resolves to whichever edge landed most recently, and two roots means whole sets
///   of frames cannot be related at all.
///
/// tf is looked at *after* transforms were dropped, since dropping the offending edge is the fix and
/// a warning about an edge that is no longer published is noise. Single-header types get the stamp
/// checks and tf gets the tree check: a `TFMessage` is a bag of transforms stamped independently by
/// whoever published each edge, so it has no one stamp to run backwards.
#[derive(Debug, PartialEq, Eq)]
pub struct Audit {
    pub streams: Vec<StreamStamps>,
    pub ahead: Throttle,
    pub backwards: Throttle,
    /// Every parent each frame has been seen under.
    pub parents: Table<Names>,
    pub doubled: Throttle,
    pub split: Throttle,
    /// When the frames last stopped forming one tree. A tree assembles an edge at a time, so a frame
    /// is briefly its own root until its parent's first message arrives; only a split that outlives a
    /// warning window is real.
    pub split_since: Option<u64>,
}

/// The tree that a table of parents holds.
pub open spec fn tree_of(parents: Table<Names>) -> Tree {
    Map::new(|child: Seq<char>| parents@.contains_key(child), |child: Seq<char>| parents@[child]@)
}

pub open spec fn parents_wf(parents: Table<Names>) -> bool {
    &&& parents.wf()
    &&& forall|i: int| 0 <= i < parents.vals@.len() ==> (#[trigger] parents.vals@[i]).wf()
}

/// The frames that have been seen as a parent but never as a child.
pub fn roots(parents: &Table<Names>) -> (r: Names)
    requires
        parents_wf(*parents),
    ensures
        r.wf(),
        r@ == roots_of(tree_of(*parents)),
{
    let mut roots: Names = Names::new();
    let ghost tree = tree_of(*parents);
    let mut i: usize = 0;
    while i < parents.vals.len()
        invariant
            i <= parents.vals@.len(),
            parents_wf(*parents),
            roots.wf(),
            forall|frame: Seq<char>| #[trigger]
                roots@.contains(frame) <==> !parents@.contains_key(frame) && exists|j: int|
                    0 <= j < i && (#[trigger] parents.vals@[j])@.contains(frame),
        decreases parents.vals@.len() - i,
    {
        let names: &Names = &parents.vals[i];
        let ghost before = roots@;
        let mut k: usize = 0;
        while k < names.items.len()
            invariant
                k <= names.items@.len(),
                parents_wf(*parents),
                roots.wf(),
                forall|frame: Seq<char>| #[trigger]
                    roots@.contains(frame) <==> (before.contains(frame) || (
                    !parents@.contains_key(frame) && exists|m: int|
                        0 <= m < k && #[trigger] names@[m] == frame)),
            decreases names.items@.len() - k,
        {
            let name: &String = &names.items[k];
            let ghost held = roots@;
            assert(names@[k as int] == name@);
            if parents.find(name.as_str()).is_none() {
                proof {
                    law_with_name(held, name@);
                }
                let added: bool = roots.insert(name.clone());
            }
            assert forall|frame: Seq<char>| #[trigger]
                roots@.contains(frame) <==> (before.contains(frame) || (!parents@.contains_key(
                    frame,
                ) && exists|m: int| 0 <= m < k + 1 && #[trigger] names@[m] == frame)) by {
                assert(held.contains(frame) <==> (before.contains(frame) || (
                !parents@.contains_key(frame) && exists|m: int|
                    0 <= m < k && #[trigger] names@[m] == frame)));
                if exists|m: int| 0 <= m < k + 1 && #[trigger] names@[m] == frame {
                    let m = choose|m: int| 0 <= m < k + 1 && #[trigger] names@[m] == frame;
                    if m == k {
                        assert(frame == name@);
                    }
                }
                if exists|m: int| 0 <= m < k && #[trigger] names@[m] == frame {
                    let m = choose|m: int| 0 <= m < k && #[trigger] names@[m] == frame;
                    assert(0 <= m < k + 1 && names@[m] == frame);
                }
            }
            k = k + 1;
        }
        assert forall|frame: Seq<char>| #[trigger]
            roots@.contains(frame) <==> !parents@.contains_key(frame) && exists|j: int|
                0 <= j < i + 1 && (#[trigger] parents.vals@[j])@.contains(frame) by {
            if parents.vals@[i as int]@.contains(frame) {
                let m = choose|m: int| 0 <= m < names@.len() && names@[m] == frame;
                assert(names@[m] == frame);
            }
            if roots@.contains(frame) && !before.contains(frame) {
                let m = choose|m: int| 0 <= m < k && #[trigger] names@[m] == frame;
                assert(parents.vals@[i as int]@.contains(frame));
            }
        }
        i = i + 1;
    }
    proof {
        assert forall|frame: Seq<char>| #[trigger]
            roots@.contains(frame) <==> is_root(tree, frame) by {
            if roots@.contains(frame) {
                let j = choose|j: int|
                    0 <= j < parents.vals@.len() && (#[trigger] parents.vals@[j])@.contains(frame);
                lemma_rank_of_member(parents.keys@, j);
                assert(parents.keys@.contains(parents.keys@[j]));
                assert(tree.contains_key(parents.keys@[j]));
            }
            if is_root(tree, frame) {
                let child = choose|child: Seq<char>| #[trigger]
                    tree.contains_key(child) && tree[child].contains(frame);
                let j = choose|j: int| 0 <= j < parents.keys@.len() && parents.keys@[j] == child;
                lemma_rank_of_member(parents.keys@, j);
                assert(parents.vals@[j]@.contains(frame));
            }
        }
        lemma_roots(tree, roots@);
    }
    roots
}

/// The stamp of a payload, if there is anything to hold it against: one that is set, on the clock of
/// the recorder. A stamp from another clock entirely is already counted and replaced when retiming;
/// measuring an uptime clock against the epoch says nothing.
pub open spec fn checked_stamp(buf: Seq<u8>, offset: int, received_ns: int) -> Option<int> {
    if received_ns == 0 || buf.len() < offset + 8 {
        None
    } else {
        match stamp_at(buf, offset) {
            Some(ns) => if on_same_clock(ns, received_ns) {
                Some(ns)
            } else {
                None
            },
            None => None,
        }
    }
}

/// Whether a warning says that a frame has these parents.
pub open spec fn says_doubled(
    warning: Warning,
    child: Seq<char>,
    parents: Seq<Seq<char>>,
    swallowed: u64,
) -> bool {
    warning matches Warning::Doubled { child: c, parents: p, suppressed } && c@ == child && p@
        == listed_text(parents) && suppressed == swallowed
}

/// Whether a warning says that there are these trees.
pub open spec fn says_split(warning: Warning, roots: Seq<Seq<char>>, swallowed: u64) -> bool {
    warning matches Warning::Split { count, roots: r, suppressed } && count == roots.len() && r@
        == listed_text(roots) && suppressed == swallowed
}

impl Throttle {
    proof fn lemma_after(self, events: nat, now: u64)
        requires
            self.suppressed + events + 1 <= u64::MAX,
        ensures
            self.after(events, now).after(1, now) == self.after(events + 1, now),
            events > 0 ==> self.after(events, now).quiet(now),
            self.after(events, now).suppressed <= self.suppressed + events,
    {
    }
}

impl Audit {
    pub open spec fn wf(&self) -> bool {
        &&& parents_wf(self.parents)
        &&& forall|i: int| 0 <= i < self.streams@.len() ==> (#[trigger] self.streams@[i]).wf()
    }

    /// Whether no counter overflows when this many more defects are counted.
    pub open spec fn room_for(&self, defects: nat) -> bool {
        &&& self.ahead.suppressed + defects < u64::MAX
        &&& self.backwards.suppressed + defects < u64::MAX
        &&& self.doubled.suppressed + defects < u64::MAX
        &&& self.split.suppressed + defects < u64::MAX
        &&& forall|i: int|
            0 <= i < self.streams@.len() ==> (#[trigger] self.streams@[i]).ahead + defects < u64::MAX
                && self.streams@[i].backwards + defects < u64::MAX
    }

    /// The frames that were seen.
    pub open spec fn tree(&self) -> Tree {
        tree_of(self.parents)
    }

    /// Whether nothing was seen yet of these streams.
    pub open spec fn fresh(&self, stream_names: Seq<String>) -> bool {
        &&& self.streams@.len() == stream_names.len()
        &&& forall|i: int|
            0 <= i < stream_names.len() ==> #[trigger] self.streams@[i] == (StreamStamps {
                name: stream_names[i],
                previous_ns: None,
                ahead: 0,
                worst_ahead_ns: 0,
                backwards: 0,
                worst_backstep_ns: 0,
            })
        &&& self.tree() == Map::<Seq<char>, Seq<Seq<char>>>::empty()
        &&& self.ahead == (Throttle { last: None, suppressed: 0 })
        &&& self.backwards == self.ahead
        &&& self.doubled == self.ahead
        &&& self.split == self.ahead
        &&& self.split_since is None
    }

    pub fn new(stream_names: Vec<String>) -> (r: Self)
        ensures
            r.wf(),
            r.fresh(stream_names@),
    {
        let mut streams: Vec<StreamStamps> = Vec::new();
        let mut i: usize = 0;
        while i < stream_names.len()
            invariant
                i <= stream_names@.len(),
                streams@.len() == i,
                forall|j: int|
                    0 <= j < i ==> #[trigger] streams@[j] == (StreamStamps {
                        name: stream_names@[j],
                        previous_ns: None,
                        ahead: 0,
                        worst_ahead_ns: 0,
                        backwards: 0,
                        worst_backstep_ns: 0,
                    }),
            decreases stream_names@.len() - i,
        {
            streams.push(
                StreamStamps {
                    name: stream_names[i].clone(),
                    previous_ns: None,
                    ahead: 0,
                    worst_ahead_ns: 0,
                    backwards: 0,
                    worst_backstep_ns: 0,
                },
            );
            i = i + 1;
        }
        let parents: Table<Names> = Table::new();
        assert(tree_of(parents) =~= Map::empty());
        Audit {
            streams,
            ahead: Throttle::new(),
            backwards: Throttle::new(),
            parents,
            doubled: Throttle::new(),
            split: Throttle::new(),
            split_since: None,
        }
    }

    /// What a stamp does to the audit, and what is said of it.
    pub open spec fn stamp_checked(
        before: Audit,
        after: Audit,
        warnings: Seq<Warning>,
        stream: int,
        stamp: Option<int>,
        received_ns: int,
        now_ns: u64,
    ) -> bool {
        match stamp {
            None => after == before && warnings.len() == 0,
            Some(stamp_ns) => {
                let stamps = before.streams@[stream];
                let ahead_ns = stamp_ns - received_ns;
                let backstep_ns = stamps.backstep(stamp_ns);
                let is_ahead = ahead_ns > AHEAD_TOLERANCE_NS;
                let is_back = backstep_ns > 0;
                &&& after.streams@ == before.streams@.update(
                    stream,
                    stamps.seen(stamp_ns, received_ns),
                )
                &&& after.ahead == before.ahead.after(if is_ahead { 1 } else { 0 }, now_ns)
                &&& after.backwards == before.backwards.after(if is_back { 1 } else { 0 }, now_ns)
                &&& after.parents == before.parents
                &&& after.doubled == before.doubled
                &&& after.split == before.split
                &&& after.split_since == before.split_since
                &&& warnings == (if is_ahead && !before.ahead.quiet(now_ns) {
                    seq![
                        Warning::Ahead {
                            name: stamps.name,
                            ahead_ns: ahead_ns as i64,
                            suppressed: before.ahead.suppressed,
                        },
                    ]
                } else {
                    Seq::empty()
                }) + (if is_back && !before.backwards.quiet(now_ns) {
                    seq![
                        Warning::Backwards {
                            name: stamps.name,
                            backstep_ns: backstep_ns as i64,
                            suppressed: before.backwards.suppressed,
                        },
                    ]
                } else {
                    Seq::empty()
                })
            },
        }
    }

    fn check_stamp(
        &mut self,
        stream: usize,
        offset: usize,
        buf: &[u8],
        received_ns: i64,
        now_ns: u64,
    ) -> (warnings: Vec<Warning>)
        requires
            old(self).wf(),
            stream < old(self).streams@.len(),
            old(self).room_for(1),
        ensures
            final(self).wf(),
            Audit::stamp_checked(
                *old(self),
                *final(self),
                warnings@,
                stream as int,
                checked_stamp(buf@, offset as int, received_ns as int),
                received_ns as int,
                now_ns,
            ),
    {
        let mut warnings: Vec<Warning> = Vec::new();
        if received_ns == 0 || buf.len() < 8 || offset > buf.len() - 8 {
            return warnings;
        }
        let stamp_ns: i64 = match read_nanos(buf, offset) {
            Some(ns) => ns,
            None => {
                return warnings;
            },
        };
        if !same_clock(stamp_ns, received_ns) {
            return warnings;
        }
        assert(self.streams@[stream as int].wf());
        let name: String = self.streams[stream].name.clone();
        let ahead_ns: i64 = stamp_ns - received_ns;
        let mut backstep_ns: i64 = 0;
        let stamps: &mut StreamStamps = &mut self.streams[stream];
        if ahead_ns > AHEAD_TOLERANCE_NS {
            stamps.ahead = stamps.ahead + 1;
            if stamps.worst_ahead_ns < ahead_ns {
                stamps.worst_ahead_ns = ahead_ns;
            }
        }
        match stamps.previous_ns {
            Some(previous_ns) => {
                if stamp_ns < previous_ns {
                    backstep_ns = previous_ns - stamp_ns;
                    stamps.backwards = stamps.backwards + 1;
                    if stamps.worst_backstep_ns < backstep_ns {
                        stamps.worst_backstep_ns = backstep_ns;
                    }
                }
            },
            None => {},
        }
        stamps.previous_ns = Some(stamp_ns);
        if ahead_ns > AHEAD_TOLERANCE_NS {
            match self.ahead.ready(now_ns) {
                Some(suppressed) => warnings.push(
                    Warning::Ahead { name: name.clone(), ahead_ns, suppressed },
                ),
                None => {},
            }
        }
        if backstep_ns > 0 {
            match self.backwards.ready(now_ns) {
                Some(suppressed) => warnings.push(
                    Warning::Backwards { name, backstep_ns, suppressed },
                ),
                None => {},
            }
        }
        proof {
            let before = old(self).streams@[stream as int];
            let seen = before.seen(stamp_ns as int, received_ns as int);
            assert(backstep_ns == before.backstep(stamp_ns as int));
            assert(self.streams@[stream as int] == seen);
            assert(self.streams@ =~= old(self).streams@.update(stream as int, seen));
            let first: Seq<Warning> = if ahead_ns > AHEAD_TOLERANCE_NS && !old(self).ahead.quiet(
                now_ns,
            ) {
                seq![
                    Warning::Ahead {
                        name: before.name,
                        ahead_ns,
                        suppressed: old(self).ahead.suppressed,
                    },
                ]
            } else {
                Seq::empty()
            };
            let second: Seq<Warning> = if backstep_ns > 0 && !old(self).backwards.quiet(now_ns) {
                seq![
                    Warning::Backwards {
                        name: before.name,
                        backstep_ns,
                        suppressed: old(self).backwards.suppressed,
                    },
                ]
            } else {
                Seq::empty()
            };
            assert(warnings@ =~= first + second);
        }
        warnings
    }
}

/// Records one edge. The result lists the parents of the frame, if the edge gave it another one.
fn grow(parents: &mut Table<Names>, transform: &TransformStamped) -> (r: Option<String>)
    requires
        parents_wf(*old(parents)),
    ensures
        parents_wf(*final(parents)),
        tree_of(*final(parents)) == with_edge(tree_of(*old(parents)), *transform),
        r is Some == doubles(tree_of(*old(parents)), *transform),
        r matches Some(named) ==> named@ == listed_text(
            parents_of(tree_of(*final(parents)), transform.child_frame_id@),
        ),
{
    let ghost child = transform.child_frame_id@;
    let ghost tree = tree_of(*parents);
    let empty: Names = Names::new();
    let i: usize = parents.ensure(transform.child_frame_id.clone(), empty);
    let ghost mid = *parents;
    proof {
        assert forall|j: int| 0 <= j < mid.vals@.len() implies (#[trigger] mid.vals@[j]).wf() by {
            if !old(parents)@.contains_key(child) {
                if j < i {
                    assert(mid.vals@[j] == old(parents).vals@[j]);
                } else if j > i {
                    assert(mid.vals@[j] == old(parents).vals@[j - 1]);
                }
            }
        }
        lemma_rank_of_member(mid.keys@, i as int);
    }
    let set: &mut Names = parents.value_mut(i);
    let ghost before = set@;
    assert(before == parents_of(tree, child));
    proof {
        law_with_name(before, transform.header.frame_id@);
        lemma_rank_splits(before, transform.header.frame_id@);
    }
    let fresh: bool = set.insert(transform.header.frame_id.clone());
    let ghost after = *set;
    let doubled: bool = fresh && set.items.len() > 1;
    let named: Option<String> = if doubled {
        Some(listed(set))
    } else {
        None
    };
    proof {
        assert(before.contains(transform.header.frame_id@) ==> before.len() > 0);
        assert(tree_of(*parents) =~= with_edge(tree, *transform));
        assert(parents.vals@ == mid.vals@.update(i as int, after));
    }
    named
}

impl Audit {
    /// When a split of the frames that is still there after a message began.
    pub open spec fn split_began(before: Audit, now_ns: u64) -> u64 {
        match before.split_since {
            Some(since) => since,
            None => now_ns,
        }
    }

    /// What a `tf` message does to the audit, and what is said of it.
    pub open spec fn tree_checked(
        before: Audit,
        after: Audit,
        warnings: Seq<Warning>,
        transforms: Seq<TransformStamped>,
        now_ns: u64,
    ) -> bool {
        let tree = with_edges(before.tree(), transforms);
        let doubled = doublings(before.tree(), transforms);
        let warns = doubled.len() > 0 && !before.doubled.quiet(now_ns);
        let roots = roots_of(tree);
        let is_split = roots.len() >= 2;
        let since = Audit::split_began(before, now_ns);
        let is_real = is_split && now_ns >= since + WARN_EVERY_NS;
        let warns_split = is_real && !before.split.quiet(now_ns);
        &&& after.streams == before.streams
        &&& after.ahead == before.ahead
        &&& after.backwards == before.backwards
        &&& after.tree() == tree
        &&& after.doubled == before.doubled.after(doubled.len(), now_ns)
        &&& after.split_since == (if is_split {
            Some(since)
        } else {
            None
        })
        &&& after.split == before.split.after(if is_real { 1 } else { 0 }, now_ns)
        &&& warnings.len() == (if warns {
            1int
        } else {
            0int
        }) + (if warns_split {
            1int
        } else {
            0int
        })
        &&& warns ==> says_doubled(
            warnings[0],
            transforms[doubled[0]].child_frame_id@,
            parents_of(
                with_edges(before.tree(), transforms.take(doubled[0] + 1)),
                transforms[doubled[0]].child_frame_id@,
            ),
            before.doubled.suppressed,
        )
        &&& warns_split ==> says_split(warnings.last(), roots, before.split.suppressed)
    }

    fn check_tree(&mut self, message: &TFMessage, now_ns: u64) -> (warnings: Vec<Warning>)
        requires
            old(self).wf(),
            old(self).room_for(message.transforms@.len() + 1),
        ensures
            final(self).wf(),
            Audit::tree_checked(
                *old(self),
                *final(self),
                warnings@,
                message.transforms@,
                now_ns,
            ),
    {
        let mut warnings: Vec<Warning> = Vec::new();
        let ghost all = message.transforms@;
        let ghost start = self.tree();
        let mut i: usize = 0;
        assert(all.take(0) =~= Seq::empty());
        while i < message.transforms.len()
            invariant
                i <= all.len(),
                all == message.transforms@,
                old(self).room_for(all.len() + 1),
                self.wf(),
                self.streams == old(self).streams,
                self.ahead == old(self).ahead,
                self.backwards == old(self).backwards,
                self.split == old(self).split,
                self.split_since == old(self).split_since,
                start == old(self).tree(),
                self.tree() == with_edges(start, all.take(i as int)),
                doublings(start, all.take(i as int)).len() <= i,
                self.doubled == old(self).doubled.after(
                    doublings(start, all.take(i as int)).len(),
                    now_ns,
                ),
                ({
                    let doubled = doublings(start, all.take(i as int));
                    let warns = doubled.len() > 0 && !old(self).doubled.quiet(now_ns);
                    &&& warnings@.len() == (if warns { 1int } else { 0int })
                    &&& doubled.len() > 0 ==> 0 <= doubled[0] < i
                    &&& warns ==> says_doubled(
                        warnings@[0],
                        all[doubled[0]].child_frame_id@,
                        parents_of(
                            with_edges(start, all.take(doubled[0] + 1)),
                            all[doubled[0]].child_frame_id@,
                        ),
                        old(self).doubled.suppressed,
                    )
                }),
            decreases all.len() - i,
        {
            let transform: &TransformStamped = &message.transforms[i];
            let ghost so_far = all.take(i as int);
            let ghost doubled = doublings(start, so_far);
            assert(all.take(i + 1).drop_last() =~= so_far);
            assert(all.take(i + 1).last() == *transform);
            proof {
                old(self).doubled.lemma_after(doubled.len(), now_ns);
            }
            match grow(&mut self.parents, transform) {
                Some(parents) => {
                    assert(doublings(start, all.take(i + 1)) == doubled.push(i as int));
                    match self.doubled.ready(now_ns) {
                        Some(suppressed) => warnings.push(
                            Warning::Doubled {
                                child: transform.child_frame_id.clone(),
                                parents,
                                suppressed,
                            },
                        ),
                        None => {},
                    }
                },
                None => {
                    assert(doublings(start, all.take(i + 1)) == doubled);
                },
            }
            i = i + 1;
        }
        assert(all.take(i as int) =~= all);
        let found: Names = roots(&self.parents);
        if found.items.len() < 2 {
            self.split_since = None;
            return warnings;
        }
        let since: u64 = match self.split_since {
            Some(since) => since,
            None => now_ns,
        };
        self.split_since = Some(since);
        if now_ns < since || now_ns - since < WARN_EVERY_NS {
            return warnings;
        }
        let ghost held = warnings@;
        match self.split.ready(now_ns) {
            Some(suppressed) => {
                let count: usize = found.items.len();
                warnings.push(Warning::Split { count, roots: listed(&found), suppressed });
                assert(held.len() > 0 ==> warnings@[0] == held[0]);
            },
            None => {},
        }
        warnings
    }

    /// Whether a message is of a stream that is known, and no counter overflows by it.
    pub open spec fn admits(&self, stream: int, support: Support, payload: Payload) -> bool {
        match (support, payload) {
            (Support::Fixed(_), Payload::Wire(_)) => {
                0 <= stream < self.streams@.len() && self.room_for(1)
            },
            (Support::TfMessage, Payload::Tf(message)) => self.room_for(
                message.transforms@.len() + 1,
            ),
            _ => true,
        }
    }

    /// What a message does to the audit, and what is said of it.
    pub open spec fn inspected(
        before: Audit,
        after: Audit,
        warnings: Seq<Warning>,
        stream: int,
        support: Support,
        payload: Payload,
        received_ns: int,
        now_ns: u64,
    ) -> bool {
        match (support, payload) {
            (Support::Fixed(offset), Payload::Wire(buf)) => Audit::stamp_checked(
                before,
                after,
                warnings,
                stream,
                checked_stamp(buf@, offset as int, received_ns),
                received_ns,
                now_ns,
            ),
            (Support::TfMessage, Payload::Tf(message)) => Audit::tree_checked(
                before,
                after,
                warnings,
                message.transforms@,
                now_ns,
            ),
            _ => after == before && warnings.len() == 0,
        }
    }

    /// `payload` is the message as it will be published, before retiming; `received_ns` is when the
    /// recorder took delivery of it, and `now_ns` a clock that never goes back. A payload of a `tf`
    /// message that is not one is left for retiming to complain about.
    pub fn inspect(
        &mut self,
        stream: usize,
        support: Support,
        payload: &Payload,
        received_ns: i64,
        now_ns: u64,
    ) -> (warnings: Vec<Warning>)
        requires
            old(self).wf(),
            old(self).admits(stream as int, support, *payload),
        ensures
            final(self).wf(),
            Audit::inspected(
                *old(self),
                *final(self),
                warnings@,
                stream as int,
                support,
                *payload,
                received_ns as int,
                now_ns,
            ),
    {
        match (support, payload) {
            (Support::Fixed(offset), Payload::Wire(buf)) => self.check_stamp(
                stream,
                offset,
                buf.as_slice(),
                received_ns,
                now_ns,
            ),
            (Support::TfMessage, Payload::Tf(message)) => self.check_tree(message, now_ns),
            _ => Vec::new(),
        }
    }
}

// --------------------------------------------------------------------- report
/// How long the worst faults of a stream were, as a reader is told.
#[derive(Debug, PartialEq, Eq)]
pub struct Spans {
    pub ahead: String,
    pub backstep: String,
}

/// What is wrong with the stamps of a stream.
pub open spec fn faults_text(stamps: StreamStamps, spans: Spans) -> Seq<char> {
    let ahead = decimal(stamps.ahead as nat) + " stamp(s) up to "@ + spans.ahead@ + " after arrival"@;
    let back = decimal(stamps.backwards as nat) + " backwards step(s) up to "@ + spans.backstep@;
    if stamps.ahead > 0 && stamps.backwards > 0 {
        ahead + ", "@ + back
    } else if stamps.ahead > 0 {
        ahead
    } else {
        back
    }
}

/// The line on a stream, if anything is wrong with its stamps.
pub open spec fn stream_line(stamps: StreamStamps, spans: Spans) -> Seq<char> {
    if stamps.ahead > 0 || stamps.backwards > 0 {
        "  "@ + stamps.name@ + ": "@ + faults_text(stamps, spans) + "\n"@
    } else {
        Seq::empty()
    }
}

pub open spec fn stream_lines(streams: Seq<StreamStamps>, spans: Seq<Spans>) -> Seq<char>
    decreases streams.len(),
{
    if streams.len() == 0 {
        Seq::empty()
    } else {
        stream_lines(streams.drop_last(), spans.drop_last()) + stream_line(
            streams.last(),
            spans.last(),
        )
    }
}

/// The line on a frame, if it has more than one parent.
pub open spec fn frame_line(child: Seq<char>, parents: Seq<Seq<char>>) -> Seq<char> {
    if parents.len() > 1 {
        "  "@ + child + " has "@ + decimal(parents.len()) + " parents: "@ + listed_text(parents)
            + "\n"@
    } else {
        Seq::empty()
    }
}

pub open spec fn frame_lines(children: Seq<Seq<char>>, parents: Seq<Names>) -> Seq<char>
    decreases children.len(),
{
    if children.len() == 0 {
        Seq::empty()
    } else {
        frame_lines(children.drop_last(), parents.drop_last()) + frame_line(
            children.last(),
            parents.last()@,
        )
    }
}

/// The line on the roots, if there is more than one.
pub open spec fn roots_line(roots: Seq<Seq<char>>) -> Seq<char> {
    if roots.len() > 1 {
        "  "@ + decimal(roots.len()) + " separate trees, rooted at "@ + listed_text(roots) + "\n"@
    } else {
        Seq::empty()
    }
}

/// Lines under a heading, or nothing where there are none.
pub open spec fn section(heading: Seq<char>, lines: Seq<char>) -> Seq<char> {
    if lines.len() > 0 {
        heading + lines
    } else {
        Seq::empty()
    }
}

/// The report of an audit. Frames come in ascending order.
pub open spec fn audit_report(audit: Audit, spans: Seq<Spans>) -> Seq<char> {
    section("stamps that cannot be right:\n"@, stream_lines(audit.streams@, spans)) + section(
        "tf does not describe one tree:\n"@,
        frame_lines(audit.parents.keys@, audit.parents.vals@) + roots_line(roots_of(audit.tree())),
    )
}

fn push_stream(out: &mut String, stamps: &StreamStamps, spans: &Spans)
    ensures
        final(out)@ == old(out)@ + stream_line(*stamps, *spans),
{
    if stamps.ahead > 0 || stamps.backwards > 0 {
        out.append("  ");
        out.append(stamps.name.as_str());
        out.append(": ");
        if stamps.ahead > 0 {
            push_decimal(out, stamps.ahead);
            out.append(" stamp(s) up to ");
            out.append(spans.ahead.as_str());
            out.append(" after arrival");
            if stamps.backwards > 0 {
                out.append(", ");
            }
        }
        if stamps.backwards > 0 {
            push_decimal(out, stamps.backwards);
            out.append(" backwards step(s) up to ");
            out.append(spans.backstep.as_str());
        }
        out.append("\n");
    }
    assert(out@ =~= old(out)@ + stream_line(*stamps, *spans));
}

fn push_frame(out: &mut String, child: &str, parents: &Names)
    ensures
        final(out)@ == old(out)@ + frame_line(child@, parents@),
{
    if parents.items.len() > 1 {
        out.append("  ");
        out.append(child);
        out.append(" has ");
        push_decimal(out, parents.items.len() as u64);
        out.append(" parents: ");
        out.append(listed(parents).as_str());
        out.append("\n");
    }
    assert(out@ =~= old(out)@ + frame_line(child@, parents@));
}

fn append_section(report: &mut String, heading: &str, lines: &String)
    ensures
        final(report)@ == old(report)@ + section(heading@, lines@),
{
    if lines.as_str().unicode_len() > 0 {
        report.append(heading);
        report.append(lines.as_str());
    }
    assert(report@ =~= old(report)@ + section(heading@, lines@));
}

impl Audit {
    /// Named per stream and per frame, because the total says nothing about which sensor's clock to
    /// distrust or which frame got doubled. `spans` says of each stream how long its
    /// `worst_ahead_ns` and its `worst_backstep_ns` are.
    pub fn report(&self, spans: &Vec<Spans>) -> (r: String)
        requires
            self.wf(),
            spans@.len() == self.streams@.len(),
        ensures
            r@ == audit_report(*self, spans@),
    {
        let mut stamps: String = String::new();
        let ghost streams = self.streams@;
        let mut i: usize = 0;
        assert(streams.take(0) =~= Seq::empty());
        while i < self.streams.len()
            invariant
                i <= streams.len() == spans@.len(),
                streams == self.streams@,
                stamps@ == stream_lines(streams.take(i as int), spans@.take(i as int)),
            decreases streams.len() - i,
        {
            push_stream(&mut stamps, &self.streams[i], &spans[i]);
            assert(streams.take(i + 1).drop_last() =~= streams.take(i as int));
            assert(spans@.take(i + 1).drop_last() =~= spans@.take(i as int));
            i = i + 1;
        }
        assert(streams.take(i as int) =~= streams);
        assert(spans@.take(i as int) =~= spans@);

        let mut tree: String = String::new();
        let ghost children = self.parents.keys@;
        let ghost parents = self.parents.vals@;
        let mut j: usize = 0;
        assert(children.take(0) =~= Seq::empty());
        while j < self.parents.vals.len()
            invariant
                self.parents.wf(),
                j <= parents.len(),
                children == self.parents.keys@,
                parents == self.parents.vals@,
                tree@ == frame_lines(children.take(j as int), parents.take(j as int)),
            decreases parents.len() - j,
        {
            assert(children[j as int] == self.parents.keys.items@[j as int]@);
            push_frame(&mut tree, self.parents.keys.items[j].as_str(), &self.parents.vals[j]);
            assert(children.take(j + 1).drop_last() =~= children.take(j as int));
            assert(parents.take(j + 1).drop_last() =~= parents.take(j as int));
            j = j + 1;
        }
        assert(children.take(j as int) =~= children);
        assert(parents.take(j as int) =~= parents);
        let ghost frames = tree@;
        let found: Names = roots(&self.parents);
        if found.items.len() > 1 {
            tree.append("  ");
            push_decimal(&mut tree, found.items.len() as u64);
            tree.append(" separate trees, rooted at ");
            tree.append(listed(&found).as_str());
            tree.append("\n");
        }
        assert(tree@ =~= frames + roots_line(found@));

        let mut report: String = String::new();
        append_section(&mut report, "stamps that cannot be right:\n", &stamps);
        append_section(&mut report, "tf does not describe one tree:\n", &tree);
        assert(report@ =~= audit_report(*self, spans@));
        report
    }
}

// ----------------------------------------------------------------------- laws
/// The throttle after defects at these times.
pub open spec fn throttled(times: Seq<u64>) -> Throttle
    decreases times.len(),
{
    if times.len() == 0 {
        Throttle { last: None, suppressed: 0 }
    } else {
        throttled(times.drop_last()).after(1, times.last())
    }
}

/// Whether the warning about the `i`-th defect gets through.
pub open spec fn gets_through(times: Seq<u64>, i: int) -> bool {
    !throttled(times.take(i)).quiet(times[i])
}

/// How many warnings got through.
pub open spec fn warned(times: Seq<u64>) -> nat
    decreases times.len(),
{
    if times.len() == 0 {
        0
    } else {
        warned(times.drop_last()) + if throttled(times.drop_last()).quiet(times.last()) {
            0nat
        } else {
            1nat
        }
    }
}

/// How many more defects those warnings spoke of.
pub open spec fn carried(times: Seq<u64>) -> nat
    decreases times.len(),
{
    if times.len() == 0 {
        0
    } else {
        let earlier = throttled(times.drop_last());
        carried(times.drop_last()) + if earlier.quiet(times.last()) {
            0nat
        } else {
            earlier.suppressed as nat
        }
    }
}

/// No defect goes uncounted: it is warned about, or a later warning speaks of it, or it still waits for
/// that warning.
pub proof fn law_every_defect_is_warned_about_or_counted(times: Seq<u64>)
    requires
        times.len() <= u64::MAX,
    ensures
        warned(times) + carried(times) + throttled(times).suppressed == times.len(),
    decreases times.len(),
{
    if times.len() > 0 {
        law_every_defect_is_warned_about_or_counted(times.drop_last());
    }
}

proof fn lemma_last_warning(times: Seq<u64>, i: int, j: int)
    requires
        0 <= i < j <= times.len(),
        gets_through(times, i),
    ensures
        throttled(times.take(j)).last matches Some(last) && times[i] <= last,
    decreases j,
{
    let so_far = times.take(j);
    assert(so_far.drop_last() =~= times.take(j - 1));
    assert(so_far.last() == times[j - 1]);
    if i < j - 1 {
        lemma_last_warning(times, i, j - 1);
    }
}

/// The first defect is warned about.
pub proof fn law_the_first_defect_is_warned_about(times: Seq<u64>)
    requires
        times.len() > 0,
    ensures
        gets_through(times, 0),
{
    assert(times.take(0) =~= Seq::empty());
}

/// Between two warnings lies at least a window.
pub proof fn law_warnings_keep_their_distance(times: Seq<u64>, i: int, j: int)
    requires
        0 <= i < j < times.len(),
        gets_through(times, i),
        gets_through(times, j),
    ensures
        times[i] + WARN_EVERY_NS <= times[j],
{
    lemma_last_warning(times, i, j);
}

/// A stamp that moves forward, and is not past its own arrival, is left alone: nothing is said of it
/// and nothing is counted.
pub proof fn law_believable_stamps_are_left_alone(
    before: Audit,
    after: Audit,
    warnings: Seq<Warning>,
    stream: int,
    stamp_ns: i64,
    received_ns: int,
    now_ns: u64,
)
    requires
        0 <= stream < before.streams@.len(),
        Audit::stamp_checked(
            before,
            after,
            warnings,
            stream,
            Some(stamp_ns as int),
            received_ns,
            now_ns,
        ),
        stamp_ns - received_ns <= AHEAD_TOLERANCE_NS,
        before.streams@[stream].previous_ns matches Some(previous) ==> previous <= stamp_ns,
    ensures
        warnings.len() == 0,
        after.streams@ == before.streams@.update(
            stream,
            StreamStamps { previous_ns: Some(stamp_ns), ..before.streams@[stream] },
        ),
        after.ahead == before.ahead,
        after.backwards == before.backwards,
{
}

/// A stamp past its own arrival is counted, and so is one that steps back behind the last, whether a
/// warning gets through or not.
pub proof fn law_unbelievable_stamps_are_counted(
    before: Audit,
    after: Audit,
    warnings: Seq<Warning>,
    stream: int,
    stamp_ns: i64,
    received_ns: int,
    now_ns: u64,
)
    requires
        0 <= stream < before.streams@.len(),
        before.room_for(1),
        Audit::stamp_checked(
            before,
            after,
            warnings,
            stream,
            Some(stamp_ns as int),
            received_ns,
            now_ns,
        ),
    ensures
        after.streams@[stream].ahead == before.streams@[stream].ahead + (if stamp_ns - received_ns
            > AHEAD_TOLERANCE_NS {
            1int
        } else {
            0int
        }),
        after.streams@[stream].backwards == before.streams@[stream].backwards + (
        if before.streams@[stream].backstep(stamp_ns as int) > 0 {
            1int
        } else {
            0int
        }),
{
}

/// Edges may arrive in any order: the tree that they form is the same.
pub proof fn law_edges_come_in_any_order(tree: Tree, a: TransformStamped, b: TransformStamped)
    requires
        forall|child: Seq<char>| #[trigger] tree.contains_key(child) ==> sorted(tree[child]),
    ensures
        with_edge(with_edge(tree, a), b) == with_edge(with_edge(tree, b), a),
{
    let one = with_edge(with_edge(tree, a), b);
    let other = with_edge(with_edge(tree, b), a);
    if a.child_frame_id@ == b.child_frame_id@ {
        let child = a.child_frame_id@;
        let parents = parents_of(tree, child);
        let first = a.header.frame_id@;
        let second = b.header.frame_id@;
        law_with_name(parents, first);
        law_with_name(parents, second);
        law_with_name(with_name(parents, first), second);
        law_with_name(with_name(parents, second), first);
        let left = with_name(with_name(parents, first), second);
        let right = with_name(with_name(parents, second), first);
        assert forall|name: Seq<char>| left.contains(name) <==> right.contains(name) by {
            assert(with_name(parents, first).contains(name) <==> parents.contains(name) || name
                == first);
            assert(with_name(parents, second).contains(name) <==> parents.contains(name) || name
                == second);
        }
        law_order_is_determined_by_members(left, right);
    }
    assert(one =~= other);
}

/// A defect is held back when it comes less than five seconds after the last one that was warned about.
pub proof fn law_defects_are_held_back_for_five_seconds(throttle: Throttle, now: u64, events: nat)
    requires
        0 < events,
        throttle.suppressed + events <= u64::MAX,
    ensures
        throttle.quiet(now) <==> throttle.last is Some && now - throttle.last->0 < 5 * 1_000_000_000,
        throttle.quiet(now) ==> throttle.after(events, now).suppressed == throttle.suppressed + events
            && throttle.after(events, now).last == throttle.last,
        !throttle.quiet(now) ==> throttle.after(events, now).suppressed == events - 1 && throttle.after(
            events,
            now,
        ).last == Some(now),
{
}

/// A stamp is ahead when it lies more than ten milliseconds past its arrival, and steps back when it lies
/// before the last one of its stream. Each is counted, and how bad the worst one was.
pub proof fn law_stamps_are_held_against_arrival_and_the_last_one(
    stamps: StreamStamps,
    stamp_ns: i64,
    received_ns: i64,
)
    requires
        stamps.ahead < u64::MAX,
        stamps.backwards < u64::MAX,
        i64::MIN <= stamp_ns - received_ns <= i64::MAX,
        stamps.previous_ns matches Some(previous) ==> previous - stamp_ns <= i64::MAX,
    ensures
        ({
            let seen = stamps.seen(stamp_ns as int, received_ns as int);
            let ahead_ns = stamp_ns - received_ns;
            &&& seen.name == stamps.name
            &&& seen.previous_ns == Some(stamp_ns)
            &&& ahead_ns > 10_000_000 ==> seen.ahead == stamps.ahead + 1 && seen.worst_ahead_ns
                >= ahead_ns && seen.worst_ahead_ns >= stamps.worst_ahead_ns && (seen.worst_ahead_ns
                == ahead_ns || seen.worst_ahead_ns == stamps.worst_ahead_ns)
            &&& ahead_ns <= 10_000_000 ==> seen.ahead == stamps.ahead && seen.worst_ahead_ns
                == stamps.worst_ahead_ns
            &&& stamps.previous_ns matches Some(previous) ==> {
                &&& stamp_ns < previous ==> seen.backwards == stamps.backwards + 1
                    && seen.worst_backstep_ns >= previous - stamp_ns && seen.worst_backstep_ns
                    >= stamps.worst_backstep_ns && (seen.worst_backstep_ns == previous - stamp_ns
                    || seen.worst_backstep_ns == stamps.worst_backstep_ns)
                &&& stamp_ns >= previous ==> seen.backwards == stamps.backwards
                    && seen.worst_backstep_ns == stamps.worst_backstep_ns
            }
            &&& stamps.previous_ns is None ==> seen.backwards == stamps.backwards
                && seen.worst_backstep_ns == stamps.worst_backstep_ns
        }),
{
}

/// Only a stamp that is set, within an hour of when the message was received, is held against anything.
pub proof fn law_only_stamps_near_their_arrival_are_checked(
    buf: Seq<u8>,
    offset: int,
    received_ns: int,
    ns: int,
)
    requires
        0 <= offset,
    ensures
        checked_stamp(buf, offset, received_ns) == Some(ns) <==> received_ns != 0 && offset + 8
            <= buf.len() && stamp_at(buf, offset) == Some(ns) && -3_600_000_000_000 <= ns - received_ns
            <= 3_600_000_000_000,
{
}

/// One tree is what the frames form when one of them has no parent. They are said to be split once two or
/// more have gone without one for five seconds.
pub proof fn law_a_split_is_warned_about_when_it_lasts(
    before: Audit,
    after: Audit,
    warnings: Seq<Warning>,
    transforms: Seq<TransformStamped>,
    now_ns: u64,
)
    requires
        Audit::tree_checked(before, after, warnings, transforms, now_ns),
    ensures
        after.split_since is Some <==> roots_of(after.tree()).len() >= 2,
        after.split_since is Some && before.split_since is Some ==> after.split_since
            == before.split_since,
        after.split_since is Some && before.split_since is None ==> after.split_since == Some(now_ns),
        warnings.len() > 0 && warnings.last() is Split ==> {
            &&& after.split_since is Some
            &&& now_ns - after.split_since->0 >= 5 * 1_000_000_000
            &&& warnings.last()->count == roots_of(after.tree()).len()
        },
{
}

/// A warning says how many others were held back, where any were.
pub proof fn law_warnings_speak_of_those_held_back(suppressed: u64)
    ensures
        suppressed == 0 ==> and_more_text(suppressed).len() == 0,
        suppressed > 0 ==> and_more_text(suppressed) == " ("@ + decimal(suppressed as nat)
            + " more since the last warning)"@,
{
}

proof fn lemma_stream_found(streams: Seq<StreamStamps>, spans: Seq<Spans>, i: int)
    requires
        streams.len() == spans.len(),
        0 <= i < streams.len(),
    ensures
        found(stream_lines(streams, spans), stream_line(streams[i], spans[i])),
    decreases streams.len(),
{
    let earlier = stream_lines(streams.drop_last(), spans.drop_last());
    let last = stream_line(streams.last(), spans.last());
    assert(stream_lines(streams, spans) =~= earlier + last + Seq::empty());
    assert(stream_lines(streams, spans) =~= Seq::<char>::empty() + earlier + last);
    if i == streams.len() - 1 {
        lemma_found_whole(last);
        lemma_found(earlier, last, Seq::empty(), last);
    } else {
        lemma_stream_found(streams.drop_last(), spans.drop_last(), i);
        lemma_found(Seq::empty(), earlier, last, stream_line(streams[i], spans[i]));
    }
}

/// The report has a line for each stream with a fault, which gives the number of each kind and how bad the
/// worst was.
pub proof fn law_the_report_names_streams_with_faults(audit: Audit, spans: Seq<Spans>, i: int)
    requires
        spans.len() == audit.streams@.len(),
        0 <= i < audit.streams@.len(),
    ensures
        ({
            let stamps = audit.streams@[i];
            let name = "  "@ + stamps.name@ + ": "@;
            let ahead = decimal(stamps.ahead as nat) + " stamp(s) up to "@ + spans[i].ahead@
                + " after arrival"@;
            let back = decimal(stamps.backwards as nat) + " backwards step(s) up to "@
                + spans[i].backstep@;
            let report = audit_report(audit, spans);
            &&& stamps.ahead > 0 && stamps.backwards == 0 ==> found(report, name + ahead + "\n"@)
            &&& stamps.ahead == 0 && stamps.backwards > 0 ==> found(report, name + back + "\n"@)
            &&& stamps.ahead > 0 && stamps.backwards > 0 ==> found(
                report,
                name + (ahead + ", "@ + back) + "\n"@,
            )
        }),
{
    let stamps = audit.streams@[i];
    let line = stream_line(stamps, spans[i]);
    if stamps.ahead > 0 || stamps.backwards > 0 {
        lemma_stream_found(audit.streams@, spans, i);
        let lines = stream_lines(audit.streams@, spans);
        let heading = "stamps that cannot be right:\n"@;
        reveal_strlit("\n");
        assert(line.len() > 0);
        assert(lines.len() > 0);
        let rest = section(
            "tf does not describe one tree:\n"@,
            frame_lines(audit.parents.keys@, audit.parents.vals@) + roots_line(
                roots_of(audit.tree()),
            ),
        );
        lemma_found(heading, lines, rest, line);
        assert(audit_report(audit, spans) =~= heading + lines + rest);
    }
}

/// What stands in the second part of the report stands in the report.
proof fn lemma_tree_found(audit: Audit, spans: Seq<Spans>, front: Seq<char>, line: Seq<char>, back: Seq<char>)
    requires
        line.len() > 0,
        frame_lines(audit.parents.keys@, audit.parents.vals@) + roots_line(roots_of(audit.tree()))
            == front + line + back,
    ensures
        found(audit_report(audit, spans), line),
{
    let lines = front + line + back;
    let before = section("stamps that cannot be right:\n"@, stream_lines(audit.streams@, spans));
    let heading = "tf does not describe one tree:\n"@;
    lemma_found_whole(line);
    lemma_found(before + heading + front, line, back, line);
    assert(lines.len() > 0);
    assert(audit_report(audit, spans) == before + (heading + lines));
    assert(before + (heading + lines) =~= before + heading + front + line + back);
}

proof fn lemma_frames_split(children: Seq<Seq<char>>, parents: Seq<Names>, i: int) -> (r: (
    Seq<char>,
    Seq<char>,
))
    requires
        children.len() == parents.len(),
        0 <= i < children.len(),
    ensures
        frame_lines(children, parents) == r.0 + frame_line(children[i], parents[i]@) + r.1,
    decreases children.len(),
{
    let earlier = frame_lines(children.drop_last(), parents.drop_last());
    let last = frame_line(children.last(), parents.last()@);
    if i == children.len() - 1 {
        assert(frame_lines(children, parents) =~= earlier + last + Seq::empty());
        (earlier, Seq::empty())
    } else {
        let (front, back) = lemma_frames_split(children.drop_last(), parents.drop_last(), i);
        let line = frame_line(children[i], parents[i]@);
        assert(front + line + back + last =~= front + line + (back + last));
        (front, back + last)
    }
}

/// The report has a line for each frame with more than one parent, and one for the roots where there is
/// more than one.
pub proof fn law_the_report_names_frames_with_faults(audit: Audit, spans: Seq<Spans>, i: int)
    requires
        audit.parents.keys@.len() == audit.parents.vals@.len(),
        0 <= i < audit.parents.keys@.len(),
    ensures
        ({
            let parents = audit.parents.vals@[i]@;
            let roots = roots_of(audit.tree());
            let report = audit_report(audit, spans);
            &&& parents.len() >= 2 ==> found(
                report,
                "  "@ + audit.parents.keys@[i] + " has "@ + decimal(parents.len()) + " parents: "@
                    + joined(parents, ", "@) + "\n"@,
            )
            &&& roots.len() >= 2 ==> found(
                report,
                "  "@ + decimal(roots.len()) + " separate trees, rooted at "@ + joined(roots, ", "@)
                    + "\n"@,
            )
        }),
{
    reveal_strlit("\n");
    let keys = audit.parents.keys@;
    let vals = audit.parents.vals@;
    let frames = frame_lines(keys, vals);
    let roots = roots_line(roots_of(audit.tree()));
    let line = frame_line(keys[i], vals[i]@);
    if vals[i]@.len() >= 2 {
        let (front, back) = lemma_frames_split(keys, vals, i);
        assert(front + line + back + roots =~= front + line + (back + roots));
        lemma_tree_found(audit, spans, front, line, back + roots);
    }
    if roots_of(audit.tree()).len() >= 2 {
        assert(frames + roots =~= frames + roots + Seq::empty());
        lemma_tree_found(audit, spans, frames, roots, Seq::empty());
    }
}

/// A first edge doubles nothing, the same edge again doubles nothing, and another parent for the same
/// frame doubles that frame.
pub proof fn law_a_second_parent_doubles_a_frame(a: TransformStamped, b: TransformStamped)
    ensures
        !doubles(Map::empty(), a),
        doubles(with_edge(Map::empty(), a), b) <==> a.child_frame_id@ == b.child_frame_id@
            && a.header.frame_id@ != b.header.frame_id@,
{
    let tree = with_edge(Map::empty(), a);
    let parents = tree[a.child_frame_id@];
    law_with_name(Seq::empty(), a.header.frame_id@);
    assert(parents == with_name(Seq::empty(), a.header.frame_id@));
    assert(parents.contains(b.header.frame_id@) <==> Seq::<Seq<char>>::empty().contains(
        b.header.frame_id@,
    ) || b.header.frame_id@ == a.header.frame_id@);
    assert(parents.contains(a.header.frame_id@));
}

/// One more edge gives its frame one more parent, and leaves every other frame alone.
pub proof fn law_an_edge_gives_its_frame_a_parent(
    tree: Tree,
    edge: TransformStamped,
    child: Seq<char>,
    parent: Seq<char>,
)
    requires
        forall|c: Seq<char>| #[trigger] tree.contains_key(c) ==> sorted(tree[c]),
    ensures
        parents_of(with_edge(tree, edge), child).contains(parent) <==> parents_of(tree, child).contains(
            parent,
        ) || (child == edge.child_frame_id@ && parent == edge.header.frame_id@),
{
    let own = edge.child_frame_id@;
    law_with_name(parents_of(tree, own), edge.header.frame_id@);
    let after = with_name(parents_of(tree, own), edge.header.frame_id@);
    assert(after.contains(parent) <==> parents_of(tree, own).contains(parent) || parent
        == edge.header.frame_id@);
}

/// A frame is a root when some frame has it as a parent and it has none itself.
pub proof fn law_roots_are_parents_without_a_parent(tree: Tree, frame: Seq<char>, child: Seq<char>)
    ensures
        tree.contains_key(frame) ==> !is_root(tree, frame),
        !tree.contains_key(frame) && parents_of(tree, child).contains(frame) ==> is_root(tree, frame),
        is_root(tree, frame) ==> exists|c: Seq<char>| #[trigger] parents_of(tree, c).contains(frame),
{
    if is_root(tree, frame) {
        let c = choose|c: Seq<char>| #[trigger] tree.contains_key(c) && tree[c].contains(frame);
        assert(parents_of(tree, c).contains(frame));
    }
    if parents_of(tree, child).contains(frame) {
        assert(tree.contains_key(child));
    }
}

/// A warning opens with the stream that it is about, or with what is wrong with the frames, and closes
/// with how many were held back.
pub proof fn law_warnings_name_what_they_are_about(warning: Warning, span: Seq<char>)
    ensures
        match warning {
            Warning::Ahead { name, suppressed, .. } => ("warning: "@ + name@
                + " is stamped "@ + span).is_prefix_of(warning.text(span)) && and_more_text(
                suppressed,
            ).is_suffix_of(warning.text(span)),
            Warning::Backwards { name, suppressed, .. } => ("warning: "@ + name@
                + " stamps went back "@ + span).is_prefix_of(warning.text(span)) && and_more_text(
                suppressed,
            ).is_suffix_of(warning.text(span)),
            Warning::Doubled { child, parents, suppressed } => ("warning: tf gives "@ + child@
                + " more than one parent ("@ + parents@ + ")"@).is_prefix_of(warning.text(span))
                && and_more_text(suppressed).is_suffix_of(warning.text(span)),
            Warning::Split { count, roots, suppressed } => ("warning: tf holds "@ + decimal(
                count as nat,
            ) + " separate trees, rooted at "@ + roots@).is_prefix_of(warning.text(span))
                && and_more_text(suppressed).is_suffix_of(warning.text(span)),
        },
{
    let text = warning.text(span);
    let n = text.len() as int;
    match warning {
        Warning::Ahead { name, suppressed, .. } => {
            let front = "warning: "@ + name@ + " is stamped "@ + span;
            assert(front =~= text.subrange(0, front.len() as int));
            assert(and_more_text(suppressed) =~= text.subrange(
                n - and_more_text(suppressed).len(),
                n,
            ));
        },
        Warning::Backwards { name, suppressed, .. } => {
            let front = "warning: "@ + name@ + " stamps went back "@ + span;
            assert(front =~= text.subrange(0, front.len() as int));
            assert(and_more_text(suppressed) =~= text.subrange(
                n - and_more_text(suppressed).len(),
                n,
            ));
        },
        Warning::Doubled { child, parents, suppressed } => {
            let front = "warning: tf gives "@ + child@ + " more than one parent ("@ + parents@ + ")"@;
            assert(front =~= text.subrange(0, front.len() as int));
            assert(and_more_text(suppressed) =~= text.subrange(
                n - and_more_text(suppressed).len(),
                n,
            ));
        },
        Warning::Split { count, roots, suppressed } => {
            let front = "warning: tf holds "@ + decimal(count as nat)
                + " separate trees, rooted at "@ + roots@;
            assert(front =~= text.subrange(0, front.len() as int));
            assert(and_more_text(suppressed) =~= text.subrange(
                n - and_more_text(suppressed).len(),
                n,
            ));
        },
    }
}

/// The first defect of a kind in five seconds is warned about, with how far the stamp is off.
pub proof fn law_warnings_give_how_far_a_stamp_is_off(
    before: Audit,
    after: Audit,
    warnings: Seq<Warning>,
    stream: int,
    stamp_ns: i64,
    received_ns: i64,
    now_ns: u64,
)
    requires
        0 <= stream < before.streams@.len(),
        Audit::stamp_checked(
            before,
            after,
            warnings,
            stream,
            Some(stamp_ns as int),
            received_ns as int,
            now_ns,
        ),
        i64::MIN <= stamp_ns - received_ns <= i64::MAX,
        before.streams@[stream].previous_ns matches Some(previous) ==> previous - stamp_ns <= i64::MAX,
    ensures
        ({
            let stamps = before.streams@[stream];
            let speaks_ahead = before.ahead.last matches Some(last) ==> now_ns - last >= 5_000_000_000;
            let speaks_back = before.backwards.last matches Some(last) ==> now_ns - last
                >= 5_000_000_000;
            let ahead = stamp_ns - received_ns > 10_000_000 && speaks_ahead;
            let back = stamps.previous_ns is Some && stamp_ns < stamps.previous_ns->0 && speaks_back;
            &&& ahead ==> warnings.len() > 0 && (warnings[0] matches Warning::Ahead {
                name,
                ahead_ns,
                suppressed,
            } && name == stamps.name && received_ns + ahead_ns == stamp_ns && suppressed
                == before.ahead.suppressed)
            &&& back ==> warnings.len() > 0 && (warnings.last() matches Warning::Backwards {
                name,
                backstep_ns,
                suppressed,
            } && name == stamps.name && stamp_ns + backstep_ns == stamps.previous_ns->0 && suppressed
                == before.backwards.suppressed)
            &&& warnings.len() == (if ahead {
                1int
            } else {
                0int
            }) + (if back {
                1int
            } else {
                0int
            })
        }),
{
}

/// A frame that gets another parent is warned about, and so is a split that has lasted, unless that was
/// done less than five seconds ago.
pub proof fn law_faults_of_the_tree_are_warned_about(
    before: Audit,
    after: Audit,
    warnings: Seq<Warning>,
    transforms: Seq<TransformStamped>,
    now_ns: u64,
)
    requires
        Audit::tree_checked(before, after, warnings, transforms, now_ns),
    ensures
        doublings(before.tree(), transforms).len() > 0 && (before.doubled.last matches Some(last) ==> now_ns
            - last >= 5_000_000_000) ==> warnings.len() > 0 && warnings[0] is Doubled,
        after.split_since is Some && now_ns - after.split_since->0 >= 5_000_000_000 && (
        before.split.last matches Some(last) ==> now_ns - last >= 5_000_000_000) ==> warnings.len() > 0
            && warnings.last() is Split,
        doublings(before.tree(), transforms).len() == 0 && roots_of(after.tree()).len() < 2
            ==> warnings.len() == 0,
{
}

/// An edge that gives a frame another parent is counted among the doublings, and no other is.
pub proof fn law_doublings_are_counted_edge_by_edge(
    tree: Tree,
    transforms: Seq<TransformStamped>,
    edge: TransformStamped,
)
    ensures
        doublings(tree, transforms.push(edge)).len() == doublings(tree, transforms).len() + (
        if doubles(with_edges(tree, transforms), edge) {
            1int
        } else {
            0int
        }),
        doublings(tree, Seq::empty()).len() == 0,
        with_edges(tree, transforms.push(edge)) == with_edge(with_edges(tree, transforms), edge),
{
    assert(transforms.push(edge).drop_last() =~= transforms);
}

/// A payload without a stamp, or one that is not what its type says, is neither counted nor warned about.
pub proof fn law_other_payloads_are_let_through(
    before: Audit,
    after: Audit,
    warnings: Seq<Warning>,
    stream: int,
    support: Support,
    payload: Payload,
    received_ns: int,
    now_ns: u64,
)
    requires
        Audit::inspected(
            before,
            after,
            warnings,
            stream,
            support,
            payload,
            received_ns,
            now_ns,
        ),
        support == Support::Unstamped || (support is Fixed && payload is Tf) || (support
            == Support::TfMessage && payload is Wire),
    ensures
        after == before,
        warnings.len() == 0,
{
}

} // verus!
