//! Dropping named transforms from replayed `tf` messages.
use super::{Payload, StampError};
use crate::cdr::messages::{Header, TransformStamped};
use crate::order::{lemma_rank_of_member, Table};
use crate::text::{
    decimal, found, law_the_sides_of_a_split_make_the_string, lemma_first_index, lemma_found,
    lemma_found_whole, push_decimal, same, split_first, split_once,
};
use vstd::prelude::*;

verus! {

/// Why a rule was refused.
#[derive(Debug, PartialEq, Eq)]
pub enum RuleError {
    /// The rule is not `PARENT:CHILD`.
    NoColon(String),
    /// One of the frames is empty.
    EmptyFrame(String),
}

impl RuleError {
    /// What the error reads like.
    pub open spec fn text(&self) -> Seq<char> {
        match self {
            RuleError::NoColon(rule) => "--drop-tf wants PARENT:CHILD, not "@ + rule@,
            RuleError::EmptyFrame(rule) => "--drop-tf "@ + rule@
                + " has an empty frame; use * to match any"@,
        }
    }

    pub fn message(&self) -> (r: String)
        ensures
            r@ == self.text(),
    {
        match self {
            RuleError::NoColon(rule) => {
                let mut text: String = "--drop-tf wants PARENT:CHILD, not ".to_owned();
                text.append(rule.as_str());
                text
            },
            RuleError::EmptyFrame(rule) => {
                let mut text: String = "--drop-tf ".to_owned();
                text.append(rule.as_str());
                text.append(" has an empty frame; use * to match any");
                text
            },
        }
    }
}

/// The parent and the child that a rule names, cut at its first colon.
pub open spec fn rule_of(rule: Seq<char>) -> Option<(Seq<char>, Seq<char>)> {
    match split_first(rule, ':') {
        Some((parent, child)) => if parent.len() > 0 && child.len() > 0 {
            Some((parent, child))
        } else {
            None
        },
        None => None,
    }
}

/// Whether one side of a rule covers a frame.
pub open spec fn covers(side: Seq<char>, frame: Seq<char>) -> bool {
    side == "*"@ || side == frame
}

/// The edges that the rules name.
pub open spec fn rule_views(rules: Seq<(String, String)>) -> Seq<(Seq<char>, Seq<char>)> {
    rules.map_values(|rule: (String, String)| (rule.0@, rule.1@))
}

/// Whether any of the rules covers an edge on both sides.
pub open spec fn dropped_by(
    rules: Seq<(Seq<char>, Seq<char>)>,
    parent: Seq<char>,
    child: Seq<char>,
) -> bool {
    exists|i: int|
        0 <= i < rules.len() && covers((#[trigger] rules[i]).0, parent) && covers(rules[i].1, child)
}

/// The sum of some counts.
pub open spec fn sum(counts: Seq<u64>) -> nat
    decreases counts.len(),
{
    if counts.len() == 0 {
        0
    } else {
        sum(counts.drop_last()) + counts.last() as nat
    }
}

/// The sum of all counts in some tables.
pub open spec fn sum_of_tables(tables: Seq<Table<u64>>) -> nat
    decreases tables.len(),
{
    if tables.len() == 0 {
        0
    } else {
        sum_of_tables(tables.drop_last()) + sum(tables.last().vals@)
    }
}

proof fn lemma_sum_update(counts: Seq<u64>, i: int, count: u64)
    requires
        0 <= i < counts.len(),
    ensures
        sum(counts.update(i, count)) == sum(counts) - counts[i] + count,
        sum(counts) >= counts[i],
    decreases counts.len(),
{
    let new = counts.update(i, count);
    if i == counts.len() - 1 {
        assert(new.drop_last() =~= counts.drop_last());
    } else {
        lemma_sum_update(counts.drop_last(), i, count);
        assert(new.drop_last() =~= counts.drop_last().update(i, count));
    }
}

proof fn lemma_sum_insert(counts: Seq<u64>, i: int, count: u64)
    requires
        0 <= i <= counts.len(),
    ensures
        sum(counts.insert(i, count)) == sum(counts) + count,
    decreases counts.len(),
{
    let new = counts.insert(i, count);
    if i == counts.len() {
        assert(new.drop_last() =~= counts);
    } else {
        lemma_sum_insert(counts.drop_last(), i, count);
        assert(new.drop_last() =~= counts.drop_last().insert(i, count));
    }
}

proof fn lemma_tables_update(tables: Seq<Table<u64>>, i: int, table: Table<u64>)
    requires
        0 <= i < tables.len(),
    ensures
        sum_of_tables(tables.update(i, table)) == sum_of_tables(tables) - sum(tables[i].vals@) + sum(
            table.vals@,
        ),
        sum_of_tables(tables) >= sum(tables[i].vals@),
    decreases tables.len(),
{
    let new = tables.update(i, table);
    if i == tables.len() - 1 {
        assert(new.drop_last() =~= tables.drop_last());
    } else {
        lemma_tables_update(tables.drop_last(), i, table);
        assert(new.drop_last() =~= tables.drop_last().update(i, table));
    }
}

proof fn lemma_tables_insert(tables: Seq<Table<u64>>, i: int, table: Table<u64>)
    requires
        0 <= i <= tables.len(),
    ensures
        sum_of_tables(tables.insert(i, table)) == sum_of_tables(tables) + sum(table.vals@),
    decreases tables.len(),
{
    let new = tables.insert(i, table);
    if i == tables.len() {
        assert(new.drop_last() =~= tables);
    } else {
        lemma_tables_insert(tables.drop_last(), i, table);
        assert(new.drop_last() =~= tables.drop_last().insert(i, table));
    }
}

/// Whether a table counts drops: it counts at least one edge, and no edge that was never dropped.
pub open spec fn counts_drops(table: Table<u64>) -> bool {
    &&& table.wf()
    &&& table.vals@.len() > 0
    &&& forall|j: int| 0 <= j < table.vals@.len() ==> #[trigger] table.vals@[j] > 0
}

/// Drops named transforms from a replayed `tf` message.
///
/// Worth reaching for when the graph being replayed into publishes an edge that lands on a frame the
/// recording also parents: both reaching TF gives one frame two parents, which TF resolves by
/// whichever arrived most recently, a silent, roughly fixed error in every pose derived from it.
///
/// Entirely opt-in: with no rule a replay reproduces the recording.
#[derive(Debug, PartialEq, Eq)]
pub struct TfFilter {
    pub rules: Vec<(String, String)>,
    /// How often each edge was dropped, by parent and then by child.
    pub dropped: Table<Table<u64>>,
    /// Messages every transform was dropped from, which are not worth sending.
    pub emptied: u64,
}

impl TfFilter {
    pub open spec fn wf(&self) -> bool {
        &&& self.dropped.wf()
        &&& forall|i: int|
            0 <= i < self.dropped.vals@.len() ==> counts_drops(#[trigger] self.dropped.vals@[i])
        &&& self.total() <= u64::MAX
    }

    /// Whether an edge is dropped.
    pub open spec fn drops(&self, transform: TransformStamped) -> bool {
        dropped_by(rule_views(self.rules@), transform.header.frame_id@, transform.child_frame_id@)
    }

    /// How often an edge was dropped.
    pub open spec fn count(&self, parent: Seq<char>, child: Seq<char>) -> nat {
        if self.dropped@.contains_key(parent) && self.dropped@[parent]@.contains_key(child) {
            self.dropped@[parent]@[child] as nat
        } else {
            0
        }
    }

    /// How many transforms were dropped.
    pub open spec fn total(&self) -> nat {
        sum_of_tables(self.dropped.vals@)
    }

    /// `specs` are `PARENT:CHILD` rules; `*` matches any frame on either side.
    pub fn new(specs: &[String]) -> (r: Result<Self, RuleError>)
        ensures
            match r {
                Ok(filter) => {
                    &&& filter.wf()
                    &&& filter.total() == 0
                    &&& forall|p: Seq<char>, c: Seq<char>| #[trigger] filter.count(p, c) == 0
                    &&& filter.dropped.vals@.len() == 0
                    &&& filter.emptied == 0
                    &&& filter.rules@.len() == specs@.len()
                    &&& forall|i: int|
                        0 <= i < specs@.len() ==> rule_of((#[trigger] specs@[i])@) == Some(
                            rule_views(filter.rules@)[i],
                        )
                },
                Err(error) => exists|i: int|
                    {
                        &&& 0 <= i < specs@.len()
                        &&& rule_of((#[trigger] specs@[i])@) is None
                        &&& forall|j: int| 0 <= j < i ==> rule_of((#[trigger] specs@[j])@) is Some
                        &&& error == (if split_first(specs@[i]@, ':') is None {
                            RuleError::NoColon(specs@[i])
                        } else {
                            RuleError::EmptyFrame(specs@[i])
                        })
                    },
            },
    {
        let mut rules: Vec<(String, String)> = Vec::new();
        let mut i: usize = 0;
        while i < specs.len()
            invariant
                i <= specs@.len(),
                rules@.len() == i,
                forall|j: int|
                    0 <= j < i ==> rule_of((#[trigger] specs@[j])@) == Some(rule_views(rules@)[j]),
            decreases specs@.len() - i,
        {
            let spec_text: &String = &specs[i];
            match split_once(spec_text.as_str(), ':') {
                Some((parent, child)) => {
                    if parent.unicode_len() == 0 || child.unicode_len() == 0 {
                        let error: RuleError = RuleError::EmptyFrame(spec_text.clone());
                        assert(rule_of(specs@[i as int]@) is None);
                        return Err(error);
                    }
                    rules.push((parent.to_owned(), child.to_owned()));
                },
                None => {
                    let error: RuleError = RuleError::NoColon(spec_text.clone());
                    assert(rule_of(specs@[i as int]@) is None);
                    return Err(error);
                },
            }
            i = i + 1;
        }
        Ok(TfFilter { rules, dropped: Table::new(), emptied: 0 })
    }

    pub fn matches_a_rule(&self, parent: &str, child: &str) -> (r: bool)
        ensures
            r == dropped_by(rule_views(self.rules@), parent@, child@),
    {
        let mut i: usize = 0;
        while i < self.rules.len()
            invariant
                i <= self.rules@.len(),
                forall|j: int|
                    0 <= j < i ==> !(covers((#[trigger] rule_views(self.rules@)[j]).0, parent@)
                        && covers(rule_views(self.rules@)[j].1, child@)),
            decreases self.rules@.len() - i,
        {
            let p: &str = self.rules[i].0.as_str();
            let c: &str = self.rules[i].1.as_str();
            assert(rule_views(self.rules@)[i as int] == (p@, c@));
            if (same(p, "*") || same(p, parent)) && (same(c, "*") || same(c, child)) {
                return true;
            }
            i = i + 1;
        }
        false
    }

    /// Counts one more drop of an edge.
    fn note(&mut self, parent: &String, child: &String)
        requires
            old(self).wf(),
            old(self).total() < u64::MAX,
        ensures
            final(self).wf(),
            final(self).rules == old(self).rules,
            final(self).emptied == old(self).emptied,
            final(self).total() == old(self).total() + 1,
            forall|p: Seq<char>, c: Seq<char>| #[trigger]
                final(self).count(p, c) == old(self).count(p, c) + (if p == parent@ && c == child@ {
                    1nat
                } else {
                    0nat
                }),
    {
        let empty: Table<u64> = Table::new();
        let i: usize = self.dropped.ensure(parent.clone(), empty);
        let ghost mid = *self;
        proof {
            if old(self).dropped@.contains_key(parent@) {
            } else {
                lemma_tables_insert(old(self).dropped.vals@, i as int, empty);
                assert forall|j: int| 0 <= j < mid.dropped.vals@.len() && j != i implies counts_drops(
                    #[trigger] mid.dropped.vals@[j],
                ) by {
                    if j < i {
                        assert(mid.dropped.vals@[j] == old(self).dropped.vals@[j]);
                    } else if j > i {
                        assert(mid.dropped.vals@[j] == old(self).dropped.vals@[j - 1]);
                    }
                }
            }
        }
        assert(mid.total() == old(self).total());
        let ghost inner = mid.dropped.vals@[i as int];
        assert(inner.wf());
        assert(forall|k: int| 0 <= k < inner.vals@.len() ==> #[trigger] inner.vals@[k] > 0);
        let table: &mut Table<u64> = self.dropped.value_mut(i);
        assert(*table == inner);
        let j: usize = table.ensure(child.clone(), 0);
        let ghost grown = *table;
        proof {
            if !inner@.contains_key(child@) {
                lemma_sum_insert(inner.vals@, j as int, 0);
            }
            lemma_tables_update(mid.dropped.vals@, i as int, inner);
            lemma_sum_update(grown.vals@, j as int, 0);
        }
        let slot: &mut u64 = table.value_mut(j);
        *slot = *slot + 1;
        let ghost after = *table;
        proof {
            lemma_sum_update(grown.vals@, j as int, after.vals@[j as int]);
            lemma_tables_update(mid.dropped.vals@, i as int, after);
            assert(self.dropped.vals@ == mid.dropped.vals@.update(i as int, after));
            assert forall|k: int| 0 <= k < after.vals@.len() implies #[trigger] after.vals@[k]
                > 0 by {
                if k != j {
                    assert(after.vals@[k] == grown.vals@[k]);
                    if !inner@.contains_key(child@) {
                        if k < j {
                            assert(grown.vals@[k] == inner.vals@[k]);
                        } else {
                            assert(grown.vals@[k] == inner.vals@[k - 1]);
                        }
                    }
                }
            }
            assert(counts_drops(after));
        }
    }

    /// How many of some transforms are an edge that is dropped.
    pub open spec fn occurrences(
        &self,
        transforms: Seq<TransformStamped>,
        parent: Seq<char>,
        child: Seq<char>,
    ) -> nat {
        transforms.filter(
            |t: TransformStamped|
                t.header.frame_id@ == parent && t.child_frame_id@ == child && self.drops(t),
        ).len()
    }

    /// The transforms that are kept.
    pub open spec fn kept(&self, transforms: Seq<TransformStamped>) -> Seq<TransformStamped> {
        transforms.filter(|t: TransformStamped| !self.drops(t))
    }

    /// Rewrites the message without the dropped transforms. `false` means nothing survived and the
    /// message should not be published at all.
    pub fn apply(&mut self, payload: &mut Payload) -> (r: Result<bool, StampError>)
        requires
            old(self).wf(),
            *old(payload) matches Payload::Tf(message) ==> {
                &&& old(self).total() + message.transforms@.len() <= u64::MAX
                &&& old(self).emptied < u64::MAX
            },
        ensures
            final(self).wf(),
            final(self).rules == old(self).rules,
            match *old(payload) {
                Payload::Tf(message) => {
                    let kept = old(self).kept(message.transforms@);
                    &&& r == Ok::<bool, StampError>(kept.len() > 0)
                    &&& if kept.len() > 0 {
                        *final(payload) is Tf && final(payload)->Tf_0.transforms@ == kept
                    } else {
                        *final(payload) == *old(payload)
                    }
                    &&& final(self).emptied == old(self).emptied + (if kept.len() == 0 {
                        1int
                    } else {
                        0int
                    })
                    &&& final(self).total() == old(self).total() + message.transforms@.len()
                        - kept.len()
                    &&& forall|p: Seq<char>, c: Seq<char>| #[trigger]
                        final(self).count(p, c) == old(self).count(p, c) + old(self).occurrences(
                            message.transforms@,
                            p,
                            c,
                        )
                },
                Payload::Wire(_) => {
                    &&& r == Err::<bool, StampError>(StampError::InvalidTf)
                    &&& *final(payload) == *old(payload)
                    &&& *final(self) == *old(self)
                },
            },
    {
        match payload {
            Payload::Wire(_) => Err(StampError::InvalidTf),
            Payload::Tf(message) => {
                let ghost all = message.transforms@;
                let ghost keep = |t: TransformStamped| !old(self).drops(t);
                let mut kept: Vec<TransformStamped> = Vec::new();
                let mut i: usize = 0;
                proof {
                    reveal(Seq::filter);
                }
                assert(all.take(0).filter(keep) =~= Seq::empty());
                assert forall|p: Seq<char>, c: Seq<char>| #[trigger]
                    self.count(p, c) == old(self).count(p, c) + old(self).occurrences(
                        all.take(0),
                        p,
                        c,
                    ) by {
                    reveal(Seq::filter);
                }
                while i < message.transforms.len()
                    invariant
                        i <= message.transforms@.len(),
                        message.transforms@ == all,
                        keep == |t: TransformStamped| !old(self).drops(t),
                        self.wf(),
                        self.rules == old(self).rules,
                        self.emptied == old(self).emptied,
                        old(self).total() + all.len() <= u64::MAX,
                        kept@ == all.take(i as int).filter(keep),
                        self.total() == old(self).total() + i - kept@.len(),
                        forall|p: Seq<char>, c: Seq<char>| #[trigger]
                            self.count(p, c) == old(self).count(p, c) + old(self).occurrences(
                                all.take(i as int),
                                p,
                                c,
                            ),
                    decreases all.len() - i,
                {
                    let ghost so_far = all.take(i as int);
                    let ghost next = all[i as int];
                    let ghost before = *self;
                    assert(all.take(i + 1) =~= so_far.push(next));
                    assert(so_far.push(next).drop_last() =~= so_far);
                    reveal(Seq::filter);
                    let transform: &TransformStamped = &message.transforms[i];
                    if self.matches_a_rule(
                        transform.header.frame_id.as_str(),
                        transform.child_frame_id.as_str(),
                    ) {
                        self.note(&transform.header.frame_id, &transform.child_frame_id);
                    } else {
                        kept.push(copied(transform));
                    }
                    assert forall|p: Seq<char>, c: Seq<char>| #[trigger]
                        self.count(p, c) == old(self).count(p, c) + old(self).occurrences(
                            all.take(i + 1),
                            p,
                            c,
                        ) by {
                        reveal(Seq::filter);
                        assert(before.count(p, c) == old(self).count(p, c) + old(self).occurrences(
                            so_far,
                            p,
                            c,
                        ));
                    }
                    i = i + 1;
                }
                assert(all.take(i as int) =~= all);
                if kept.len() == 0 {
                    let ghost counted = *self;
                    self.emptied = self.emptied + 1;
                    assert(forall|p: Seq<char>, c: Seq<char>| #[trigger]
                        self.count(p, c) == counted.count(p, c));
                    return Ok(false);
                }
                message.transforms = kept;
                Ok(true)
            },
        }
    }
}

/// One line for each edge with the given parent.
pub open spec fn edge_lines(parent: Seq<char>, children: Seq<Seq<char>>, counts: Seq<u64>) -> Seq<
    char,
>
    decreases children.len(),
{
    if children.len() == 0 {
        Seq::empty()
    } else {
        edge_lines(parent, children.drop_last(), counts.drop_last()) + ("  "@ + parent + " -> "@
            + children.last() + " ("@ + decimal(counts.last() as nat) + ")\n"@)
    }
}

/// One line for each edge, in the order of the parents and then of the children.
pub open spec fn all_edge_lines(parents: Seq<Seq<char>>, tables: Seq<Table<u64>>) -> Seq<char>
    decreases parents.len(),
{
    if parents.len() == 0 {
        Seq::empty()
    } else {
        all_edge_lines(parents.drop_last(), tables.drop_last()) + edge_lines(
            parents.last(),
            tables.last().keys@,
            tables.last().vals@,
        )
    }
}

/// The report on some drops.
pub open spec fn drop_report(filter: TfFilter) -> Seq<char> {
    "dropped "@ + decimal(filter.total()) + " tf transform(s)"@ + if filter.dropped.keys@.len()
        == 0 {
        "\n"@
    } else {
        ":\n"@ + all_edge_lines(filter.dropped.keys@, filter.dropped.vals@) + if filter.emptied
            > 0 {
            "  "@ + decimal(filter.emptied as nat)
                + " tf message(s) had nothing left and were not published\n"@
        } else {
            Seq::empty()
        }
    }
}

fn sum_counts(tables: &Vec<Table<u64>>) -> (total: u64)
    requires
        sum_of_tables(tables@) <= u64::MAX,
    ensures
        total == sum_of_tables(tables@),
{
    let mut total: u64 = 0;
    let mut i: usize = 0;
    assert(tables@.take(0) =~= Seq::empty());
    while i < tables.len()
        invariant
            i <= tables@.len(),
            sum_of_tables(tables@) <= u64::MAX,
            total == sum_of_tables(tables@.take(i as int)),
        decreases tables@.len() - i,
    {
        let counts: &Vec<u64> = &tables[i].vals;
        let mut j: usize = 0;
        assert(counts@.take(0) =~= Seq::empty());
        assert(tables@.take(i + 1).drop_last() =~= tables@.take(i as int));
        proof {
            lemma_tables_prefix(tables@, i + 1);
        }
        let ghost base = total;
        while j < counts.len()
            invariant
                j <= counts@.len(),
                total == base + sum(counts@.take(j as int)),
                base + sum(counts@) <= u64::MAX,
            decreases counts@.len() - j,
        {
            assert(counts@.take(j + 1).drop_last() =~= counts@.take(j as int));
            proof {
                lemma_sum_prefix(counts@, j + 1);
            }
            total = total + counts[j];
            j = j + 1;
        }
        assert(counts@.take(j as int) =~= counts@);
        i = i + 1;
    }
    assert(tables@.take(i as int) =~= tables@);
    total
}

proof fn lemma_sum_prefix(counts: Seq<u64>, n: int)
    requires
        0 <= n <= counts.len(),
    ensures
        sum(counts.take(n)) <= sum(counts),
    decreases counts.len(),
{
    if n < counts.len() {
        lemma_sum_prefix(counts.drop_last(), n);
        assert(counts.drop_last().take(n) =~= counts.take(n));
    } else {
        assert(counts.take(n) =~= counts);
    }
}

proof fn lemma_tables_prefix(tables: Seq<Table<u64>>, n: int)
    requires
        0 <= n <= tables.len(),
    ensures
        sum_of_tables(tables.take(n)) <= sum_of_tables(tables),
    decreases tables.len(),
{
    if n < tables.len() {
        lemma_tables_prefix(tables.drop_last(), n);
        assert(tables.drop_last().take(n) =~= tables.take(n));
    } else {
        assert(tables.take(n) =~= tables);
    }
}

fn push_edges(out: &mut String, parent: &str, table: &Table<u64>)
    requires
        table.wf(),
    ensures
        final(out)@ == old(out)@ + edge_lines(parent@, table.keys@, table.vals@),
{
    let ghost keys = table.keys@;
    let ghost vals = table.vals@;
    let mut i: usize = 0;
    assert(keys.take(0) =~= Seq::empty());
    assert(out@ =~= old(out)@ + edge_lines(parent@, keys.take(0), vals.take(0)));
    while i < table.vals.len()
        invariant
            table.wf(),
            i <= vals.len(),
            keys == table.keys@,
            vals == table.vals@,
            out@ == old(out)@ + edge_lines(parent@, keys.take(i as int), vals.take(i as int)),
        decreases vals.len() - i,
    {
        let ghost before = out@;
        assert(keys[i as int] == table.keys.items@[i as int]@);
        out.append("  ");
        out.append(parent);
        out.append(" -> ");
        out.append(table.keys.items[i].as_str());
        out.append(" (");
        push_decimal(out, table.vals[i]);
        out.append(")\n");
        assert(keys.take(i + 1).drop_last() =~= keys.take(i as int));
        assert(vals.take(i + 1).drop_last() =~= vals.take(i as int));
        assert(out@ =~= before + ("  "@ + parent@ + " -> "@ + keys[i as int] + " ("@ + decimal(
            vals[i as int] as nat,
        ) + ")\n"@));
        assert(out@ =~= old(out)@ + edge_lines(parent@, keys.take(i + 1), vals.take(i + 1)));
        i = i + 1;
    }
    assert(keys.take(i as int) =~= keys);
    assert(vals.take(i as int) =~= vals);
}

impl TfFilter {
    /// Named per edge rather than totalled, because the count alone does not say *which* frame was
    /// doubled. Said even when nothing matched, so the reader can tell an empty result from a filter
    /// that never ran.
    pub fn report(&self) -> (r: String)
        requires
            self.wf(),
        ensures
            r@ == drop_report(*self),
    {
        let total: u64 = sum_counts(&self.dropped.vals);
        let mut report: String = "dropped ".to_owned();
        push_decimal(&mut report, total);
        report.append(" tf transform(s)");
        let ghost head = report@;
        if self.dropped.vals.len() == 0 {
            report.append("\n");
            return report;
        }
        report.append(":\n");
        let ghost start = report@;
        let ghost keys = self.dropped.keys@;
        let ghost vals = self.dropped.vals@;
        let mut i: usize = 0;
        assert(keys.take(0) =~= Seq::empty());
        assert(report@ =~= start + all_edge_lines(keys.take(0), vals.take(0)));
        while i < self.dropped.vals.len()
            invariant
                self.wf(),
                i <= vals.len(),
                keys == self.dropped.keys@,
                vals == self.dropped.vals@,
                report@ == start + all_edge_lines(keys.take(i as int), vals.take(i as int)),
            decreases vals.len() - i,
        {
            let ghost before = report@;
            assert(keys[i as int] == self.dropped.keys.items@[i as int]@);
            assert(counts_drops(vals[i as int]));
            push_edges(&mut report, self.dropped.keys.items[i].as_str(), &self.dropped.vals[i]);
            assert(keys.take(i + 1).drop_last() =~= keys.take(i as int));
            assert(vals.take(i + 1).drop_last() =~= vals.take(i as int));
            assert(report@ =~= start + all_edge_lines(keys.take(i + 1), vals.take(i + 1)));
            i = i + 1;
        }
        assert(keys.take(i as int) =~= keys);
        assert(vals.take(i as int) =~= vals);
        if self.emptied > 0 {
            report.append("  ");
            push_decimal(&mut report, self.emptied);
            report.append(" tf message(s) had nothing left and were not published\n");
        }
        assert(report@ =~= drop_report(*self));
        report
    }
}

fn copied(transform: &TransformStamped) -> (r: TransformStamped)
    ensures
        r == *transform,
{
    TransformStamped {
        header: Header {
            seq: transform.header.seq,
            stamp: transform.header.stamp,
            frame_id: transform.header.frame_id.clone(),
        },
        child_frame_id: transform.child_frame_id.clone(),
        transform: transform.transform,
    }
}

// ----------------------------------------------------------------------- laws
proof fn lemma_all_kept(filter: TfFilter, transforms: Seq<TransformStamped>)
    requires
        forall|i: int| 0 <= i < transforms.len() ==> !filter.drops(#[trigger] transforms[i]),
    ensures
        filter.kept(transforms) == transforms,
    decreases transforms.len(),
{
    reveal(Seq::filter);
    if transforms.len() > 0 {
        let rest = transforms.drop_last();
        assert forall|i: int| 0 <= i < rest.len() implies !filter.drops(#[trigger] rest[i]) by {
            assert(rest[i] == transforms[i]);
        }
        lemma_all_kept(filter, rest);
        assert(!filter.drops(transforms[transforms.len() - 1]));
        assert(rest.push(transforms.last()) =~= transforms);
    } else {
        assert(filter.kept(transforms) =~= transforms);
    }
}

proof fn lemma_kept_is_undropped(filter: TfFilter, transforms: Seq<TransformStamped>)
    ensures
        forall|i: int|
            0 <= i < filter.kept(transforms).len() ==> !filter.drops(
                #[trigger] filter.kept(transforms)[i],
            ),
    decreases transforms.len(),
{
    reveal(Seq::filter);
    if transforms.len() > 0 {
        lemma_kept_is_undropped(filter, transforms.drop_last());
    }
}

/// The edges that are listed are those that were dropped, and no others.
pub proof fn law_only_dropped_edges_are_listed(filter: TfFilter, parent: Seq<char>, child: Seq<char>)
    requires
        filter.wf(),
    ensures
        filter.dropped@.contains_key(parent) && filter.dropped@[parent]@.contains_key(child)
            <==> filter.count(parent, child) > 0,
        filter.dropped@.contains_key(parent) <==> exists|c: Seq<char>| #[trigger]
            filter.count(parent, c) > 0,
        filter.dropped.keys@.len() == 0 <==> filter.total() == 0,
{
    if filter.dropped@.contains_key(parent) {
        let i = choose|i: int|
            0 <= i < filter.dropped.keys@.len() && filter.dropped.keys@[i] == parent;
        lemma_rank_of_member(filter.dropped.keys@, i);
        let table = filter.dropped.vals@[i];
        assert(counts_drops(table));
        assert(filter.dropped@[parent] == table);
        lemma_rank_of_member(table.keys@, 0);
        assert(table.keys@.contains(table.keys@[0]));
        assert(table@[table.keys@[0]] == table.vals@[0]);
        assert(filter.count(parent, table.keys@[0]) > 0);
        if table@.contains_key(child) {
            let j = choose|j: int| 0 <= j < table.keys@.len() && table.keys@[j] == child;
            lemma_rank_of_member(table.keys@, j);
            assert(table@[child] == table.vals@[j]);
        }
    }
    if filter.dropped.keys@.len() > 0 {
        let table = filter.dropped.vals@[0];
        assert(counts_drops(table));
        lemma_sum_update(table.vals@, 0, 0);
        lemma_tables_update(filter.dropped.vals@, 0, table);
    }
}

/// With no rule a replay reproduces the recording.
pub proof fn law_without_rules_nothing_is_dropped(
    filter: TfFilter,
    transforms: Seq<TransformStamped>,
)
    requires
        filter.rules@.len() == 0,
    ensures
        filter.kept(transforms) == transforms,
{
    lemma_all_kept(filter, transforms);
}

/// What is left of a message holds no dropped edge, and loses nothing when it is filtered again.
pub proof fn law_what_is_kept_stays(filter: TfFilter, transforms: Seq<TransformStamped>)
    ensures
        forall|i: int|
            0 <= i < filter.kept(transforms).len() ==> !filter.drops(
                #[trigger] filter.kept(transforms)[i],
            ),
        filter.kept(filter.kept(transforms)) == filter.kept(transforms),
{
    lemma_kept_is_undropped(filter, transforms);
    lemma_all_kept(filter, filter.kept(transforms));
}

/// A rule is two frames with a colon between them, neither of them empty.
pub proof fn law_a_rule_is_two_frames_and_a_colon(
    rule: Seq<char>,
    parent: Seq<char>,
    child: Seq<char>,
)
    requires
        !parent.contains(':'),
    ensures
        rule_of(rule) == Some((parent, child)) <==> rule == parent + seq![':'] + child && parent.len()
            > 0 && child.len() > 0,
{
    law_the_sides_of_a_split_make_the_string(rule, ':');
    if rule == parent + seq![':'] + child {
        let i = parent.len() as int;
        assert(rule[i] == ':');
        assert forall|j: int| 0 <= j < i implies rule[j] != ':' by {
            assert(rule[j] == parent[j]);
        }
        lemma_first_index(rule, ':', i);
        assert(rule.take(i) =~= parent);
        assert(rule.skip(i + 1) =~= child);
    }
}

/// One more rule drops the edges whose frames it names, a `*` standing for every frame, and no others.
pub proof fn law_a_rule_drops_the_edges_it_names(
    rules: Seq<(Seq<char>, Seq<char>)>,
    rule: (Seq<char>, Seq<char>),
    parent: Seq<char>,
    child: Seq<char>,
)
    ensures
        dropped_by(rules.push(rule), parent, child) <==> dropped_by(rules, parent, child) || ((rule.0
            == seq!['*'] || rule.0 == parent) && (rule.1 == seq!['*'] || rule.1 == child)),
        !dropped_by(Seq::empty(), parent, child),
{
    reveal_strlit("*");
    assert("*"@ =~= seq!['*']);
    let more = rules.push(rule);
    if dropped_by(rules, parent, child) {
        let i = choose|i: int|
            0 <= i < rules.len() && covers((#[trigger] rules[i]).0, parent) && covers(
                rules[i].1,
                child,
            );
        assert(more[i] == rules[i]);
    }
    if covers(rule.0, parent) && covers(rule.1, child) {
        assert(more[rules.len() as int] == rule);
    }
    if dropped_by(more, parent, child) {
        let i = choose|i: int|
            0 <= i < more.len() && covers((#[trigger] more[i]).0, parent) && covers(more[i].1, child);
        if i < rules.len() {
            assert(more[i] == rules[i]);
        }
    }
}

/// The line on one edge.
pub open spec fn edge_line(parent: Seq<char>, child: Seq<char>, count: u64) -> Seq<char> {
    "  "@ + parent + " -> "@ + child + " ("@ + decimal(count as nat) + ")\n"@
}

proof fn lemma_edge_found(
    parent: Seq<char>,
    children: Seq<Seq<char>>,
    counts: Seq<u64>,
    i: int,
)
    requires
        children.len() == counts.len(),
        0 <= i < children.len(),
    ensures
        found(edge_lines(parent, children, counts), edge_line(parent, children[i], counts[i])),
    decreases children.len(),
{
    let earlier = edge_lines(parent, children.drop_last(), counts.drop_last());
    let last = edge_line(parent, children.last(), counts.last());
    assert(edge_lines(parent, children, counts) =~= earlier + last + Seq::empty());
    assert(edge_lines(parent, children, counts) =~= Seq::<char>::empty() + earlier + last);
    if i == children.len() - 1 {
        lemma_found_whole(last);
        lemma_found(earlier, last, Seq::empty(), last);
    } else {
        lemma_edge_found(parent, children.drop_last(), counts.drop_last(), i);
        lemma_found(
            Seq::empty(),
            earlier,
            last,
            edge_line(parent, children[i], counts[i]),
        );
    }
}

proof fn lemma_parent_found(
    parents: Seq<Seq<char>>,
    tables: Seq<Table<u64>>,
    i: int,
    j: int,
)
    requires
        parents.len() == tables.len(),
        0 <= i < parents.len(),
        tables[i].keys@.len() == tables[i].vals@.len(),
        0 <= j < tables[i].keys@.len(),
    ensures
        found(
            all_edge_lines(parents, tables),
            edge_line(parents[i], tables[i].keys@[j], tables[i].vals@[j]),
        ),
    decreases parents.len(),
{
    let line = edge_line(parents[i], tables[i].keys@[j], tables[i].vals@[j]);
    let earlier = all_edge_lines(parents.drop_last(), tables.drop_last());
    let last = edge_lines(parents.last(), tables.last().keys@, tables.last().vals@);
    assert(all_edge_lines(parents, tables) =~= earlier + last + Seq::empty());
    assert(all_edge_lines(parents, tables) =~= Seq::<char>::empty() + earlier + last);
    if i == parents.len() - 1 {
        lemma_edge_found(parents[i], tables[i].keys@, tables[i].vals@, j);
        lemma_found(earlier, last, Seq::empty(), line);
    } else {
        lemma_parent_found(parents.drop_last(), tables.drop_last(), i, j);
        lemma_found(Seq::empty(), earlier, last, line);
    }
}

/// The report says how many transforms were dropped, has a line for every edge that was dropped with how
/// often it was, and says of how many messages nothing was left.
pub proof fn law_the_report_lists_what_was_dropped(filter: TfFilter, parent: Seq<char>, child: Seq<char>)
    requires
        filter.wf(),
    ensures
        ("dropped "@ + decimal(filter.total()) + " tf transform(s)"@).is_prefix_of(drop_report(filter)),
        filter.count(parent, child) > 0 ==> found(
            drop_report(filter),
            edge_line(parent, child, filter.count(parent, child) as u64),
        ),
        filter.total() == 0 ==> drop_report(filter) == "dropped "@ + decimal(0) + " tf transform(s)"@
            + "\n"@,
        filter.total() > 0 && filter.emptied > 0 ==> ("  "@ + decimal(filter.emptied as nat)
            + " tf message(s) had nothing left and were not published\n"@).is_suffix_of(
            drop_report(filter),
        ),
{
    law_only_dropped_edges_are_listed(filter, parent, child);
    let report = drop_report(filter);
    let head = "dropped "@ + decimal(filter.total()) + " tf transform(s)"@;
    assert(head =~= report.subrange(0, head.len() as int));
    let keys = filter.dropped.keys@;
    let vals = filter.dropped.vals@;
    if keys.len() > 0 {
        let lines = all_edge_lines(keys, vals);
        let tail = if filter.emptied > 0 {
            "  "@ + decimal(filter.emptied as nat)
                + " tf message(s) had nothing left and were not published\n"@
        } else {
            Seq::empty()
        };
        assert(report =~= (head + ":\n"@) + lines + tail);
        if filter.emptied > 0 {
            assert(tail =~= report.subrange(report.len() - tail.len(), report.len() as int));
        }
        if filter.count(parent, child) > 0 {
            let i = choose|i: int| 0 <= i < keys.len() && keys[i] == parent;
            lemma_rank_of_member(keys, i);
            let table = vals[i];
            assert(counts_drops(table));
            let j = choose|j: int| 0 <= j < table.keys@.len() && table.keys@[j] == child;
            lemma_rank_of_member(table.keys@, j);
            lemma_parent_found(keys, vals, i, j);
            lemma_found(
                head + ":\n"@,
                lines,
                tail,
                edge_line(parent, child, filter.count(parent, child) as u64),
            );
        }
    }
}

impl RuleError {
    /// A complaint quotes the rule that it is about.
    pub proof fn law_complaints_quote_the_rule(self)
        ensures
        self matches RuleError::NoColon(rule) ==> found(self.text(), rule@),
        self matches RuleError::EmptyFrame(rule) ==> found(self.text(), rule@),
    {
        if let RuleError::NoColon(rule) = self {
            lemma_found_whole(rule@);
            let front = "--drop-tf wants PARENT:CHILD, not "@;
            let back = Seq::empty();
            lemma_found(front, rule@, back, rule@);
            assert(self.text() =~= front + rule@ + back);
        }
        if let RuleError::EmptyFrame(rule) = self {
            lemma_found_whole(rule@);
            let front = "--drop-tf "@;
            let back = " has an empty frame; use * to match any"@;
            lemma_found(front, rule@, back, rule@);
            assert(self.text() =~= front + rule@ + back);
        }
    }
}

/// A transform is dropped when a rule names its parent first and its child second, and is counted under
/// them.
pub proof fn law_transforms_are_dropped_by_parent_and_child(
    filter: TfFilter,
    transform: TransformStamped,
    parent: Seq<char>,
    child: Seq<char>,
)
    ensures
        filter.drops(transform) <==> exists|i: int|
            #![trigger filter.rules@[i]]
            0 <= i < filter.rules@.len() && (filter.rules@[i].0@ == seq!['*'] || filter.rules@[i].0@
                == transform.header.frame_id@) && (filter.rules@[i].1@ == seq!['*']
                || filter.rules@[i].1@ == transform.child_frame_id@),
        filter.occurrences(seq![transform], parent, child) == (if filter.drops(transform) && parent
            == transform.header.frame_id@ && child == transform.child_frame_id@ {
            1nat
        } else {
            0nat
        }),
        filter.kept(seq![transform]).len() == (if filter.drops(transform) {
            0nat
        } else {
            1nat
        }),
{
    reveal_strlit("*");
    assert("*"@ =~= seq!['*']);
    let rules = rule_views(filter.rules@);
    if filter.drops(transform) {
        let i = choose|i: int|
            0 <= i < rules.len() && covers((#[trigger] rules[i]).0, transform.header.frame_id@)
                && covers(rules[i].1, transform.child_frame_id@);
        assert(rules[i] == (filter.rules@[i].0@, filter.rules@[i].1@));
    }
    assert forall|i: int|
        #![trigger filter.rules@[i]]
        0 <= i < filter.rules@.len() && (filter.rules@[i].0@ == seq!['*'] || filter.rules@[i].0@
            == transform.header.frame_id@) && (filter.rules@[i].1@ == seq!['*']
            || filter.rules@[i].1@ == transform.child_frame_id@) implies filter.drops(transform) by {
        assert(rules[i] == (filter.rules@[i].0@, filter.rules@[i].1@));
    }
    assert forall|keep: spec_fn(TransformStamped) -> bool| #[trigger]
        seq![transform].filter(keep).len() == (if keep(transform) {
            1nat
        } else {
            0nat
        }) by {
        reveal(Seq::filter);
        assert(seq![transform].drop_last() =~= Seq::empty());
        assert(Seq::<TransformStamped>::empty().filter(keep) =~= Seq::empty());
    }
}

} // verus!
