//! Reading the streams of a `.db` from the first row to the last.
use super::{
    all_at_start, one_filled, order_key, Cursor, Due, Next, Stream, BEFORE_ALL, INDEX_PAGE,
};
use crate::cdr::reader::F64;
use vstd::prelude::*;

verus! {

/// The rows of a stream: each row's id and its timestamp.
pub type Rows = Seq<(i64, F64)>;

/// Where the number that a timestamp stands for comes among all others. The two zeros are one number.
pub open spec fn number(ts: F64) -> int {
    if ts.bits == 0x8000_0000_0000_0000 {
        0
    } else {
        order_key(ts)
    }
}

/// Whether a timestamp is neither infinite nor no number at all.
pub open spec fn finite(ts: F64) -> bool {
    order_key(F64 { bits: BEFORE_ALL }) < order_key(ts) < 0x7ff0_0000_0000_0000
}

/// Whether the rows of a stream stand in timestamp order, all of them at different, finite times.
pub open spec fn in_time(rows: Rows) -> bool {
    &&& forall|i: int| 0 <= i < rows.len() ==> finite((#[trigger] rows[i]).1)
    &&& forall|i: int, j: int|
        0 <= i < j < rows.len() ==> number((#[trigger] rows[i]).1) < number(
            (#[trigger] rows[j]).1,
        )
}

/// What the query for the next rows gives: the rows after a timestamp, a page of them at most.
pub open spec fn next_page(rows: Rows, last_ts: F64) -> Rows {
    let later = rows.filter(|row: (i64, F64)| number(row.1) > number(last_ts));
    if later.len() <= INDEX_PAGE {
        later
    } else {
        later.take(INDEX_PAGE as int)
    }
}

impl Next {
    /// The cursors before this is told and after it is done: where it asks for more rows of a stream,
    /// they are read from its table and taken in.
    pub open spec fn leads(
        self,
        tables: Seq<Rows>,
        before: Seq<Cursor>,
        after: Seq<Cursor>,
    ) -> bool {
        match self {
            Next::Fill { cursor } => {
                let i = cursor as int;
                &&& self.told(before, before)
                &&& one_filled(before, i, next_page(tables[i], before[i].last_ts), after)
            },
            _ => self.told(before, after),
        }
    }
}

/// Whether these are the cursors that steps lead through from before the first rows, once before each
/// step and once at the end.
pub open spec fn reading(
    streams: Seq<Stream>,
    tables: Seq<Rows>,
    steps: Seq<Next>,
    states: Seq<Seq<Cursor>>,
) -> bool {
    &&& tables.len() == streams.len()
    &&& states.len() == steps.len() + 1
    &&& all_at_start(states[0], streams)
    &&& forall|k: int|
        0 <= k < steps.len() ==> (#[trigger] steps[k]).leads(tables, states[k], states[k + 1])
}

/// The messages that came, in order.
pub open spec fn came(steps: Seq<Next>) -> Seq<Due>
    decreases steps.len(),
{
    if steps.len() == 0 {
        Seq::empty()
    } else {
        match steps.last() {
            Next::Message(due) => came(steps.drop_last()).push(due),
            _ => came(steps.drop_last()),
        }
    }
}

/// The rows of the messages of one stream.
pub open spec fn rows_of(dues: Seq<Due>, stream: int) -> Rows
    decreases dues.len(),
{
    if dues.len() == 0 {
        Seq::empty()
    } else if dues.last().stream == stream {
        rows_of(dues.drop_last(), stream).push((dues.last().id, dues.last().ts))
    } else {
        rows_of(dues.drop_last(), stream)
    }
}

/// Whether one message comes before another: by timestamp, and by stream at the same time.
pub open spec fn comes_before(ts: F64, stream: int, other_ts: F64, other_stream: int) -> bool {
    ||| order_key(ts) < order_key(other_ts)
    ||| order_key(ts) == order_key(other_ts) && stream < other_stream
}

proof fn lemma_later_rows(rows: Rows, n: int, last_ts: F64)
    requires
        0 <= n <= rows.len(),
        forall|i: int| 0 <= i < n ==> number((#[trigger] rows[i]).1) <= number(last_ts),
        forall|i: int| n <= i < rows.len() ==> number((#[trigger] rows[i]).1) > number(last_ts),
    ensures
        rows.filter(|row: (i64, F64)| number(row.1) > number(last_ts)) == rows.skip(n),
    decreases rows.len(),
{
    reveal(Seq::filter);
    if rows.len() > 0 {
        let rest = rows.drop_last();
        assert forall|i: int| 0 <= i < rest.len() implies #[trigger] rest[i] == rows[i] by {}
        if n < rows.len() {
            lemma_later_rows(rest, n, last_ts);
            assert(rest.skip(n).push(rows.last()) =~= rows.skip(n));
        } else {
            lemma_later_rows(rest, n - 1, last_ts);
            assert(rest.skip(n - 1) =~= rows.skip(n));
        }
    } else {
        assert(rows.skip(0) =~= rows);
    }
}

/// Whether a cursor has come as far in the rows of its stream as those that were taken say: what waits
/// follows them, and the next query asks for what follows that.
spec fn follows(taken: Rows, cursor: Cursor, rows: Rows) -> bool {
    let read = taken.len() + cursor.page@.len();
    &&& read <= rows.len()
    &&& taken + cursor.page@ == rows.take(read as int)
    &&& cursor.done ==> read == rows.len()
    &&& cursor.last_ts == (if read == 0 {
        F64 { bits: BEFORE_ALL }
    } else {
        rows[read - 1].1
    })
}

proof fn lemma_filling_follows(taken: Rows, before: Cursor, rows: Rows, after: Cursor)
    requires
        in_time(rows),
        follows(taken, before, rows),
        before.runs_dry(),
        before.filled(next_page(rows, before.last_ts), after),
    ensures
        follows(taken, after, rows),
{
    let n = taken.len() as int;
    let last_ts = before.last_ts;
    assert forall|i: int| 0 <= i < n implies number((#[trigger] rows[i]).1) <= number(last_ts) by {
        if i < n - 1 {
            assert(number(rows[i].1) < number(rows[n - 1].1));
        }
    }
    assert forall|i: int| n <= i < rows.len() implies number((#[trigger] rows[i]).1) > number(
        last_ts,
    ) by {
        if n == 0 {
            assert(finite(rows[i].1));
        } else {
            assert(number(rows[n - 1].1) < number(rows[i].1));
        }
    }
    lemma_later_rows(rows, n, last_ts);
    let page = next_page(rows, last_ts);
    assert(after.page@ =~= page);
    assert(taken =~= rows.take(n));
    assert(taken + after.page@ =~= rows.take(n + page.len()));
}

proof fn lemma_taking_follows(taken: Rows, before: Cursor, rows: Rows, after: Cursor)
    requires
        follows(taken, before, rows),
        before.page@.len() > 0,
        after.page@ == before.page@.skip(1),
        after.last_ts == before.last_ts,
        after.done == before.done,
    ensures
        follows(taken.push(before.page@[0]), after, rows),
        before.page@[0] == rows[taken.len() as int],
{
    let both = taken + before.page@;
    assert(both[taken.len() as int] == before.page@[0]);
    assert(taken.push(before.page@[0]) + after.page@ =~= both);
}

/// What is known after some steps.
spec fn on_track(tables: Seq<Rows>, dues: Seq<Due>, cursors: Seq<Cursor>) -> bool {
    &&& cursors.len() == tables.len()
    &&& forall|j: int|
        0 <= j < cursors.len() ==> (#[trigger] cursors[j]).stream == j && follows(
            rows_of(dues, j),
            cursors[j],
            tables[j],
        )
    &&& forall|a: int| 0 <= a < dues.len() ==> (#[trigger] dues[a]).stream < tables.len()
    &&& forall|a: int, b: int|
        0 <= a < b < dues.len() ==> comes_before(
            (#[trigger] dues[a]).ts,
            dues[a].stream as int,
            (#[trigger] dues[b]).ts,
            dues[b].stream as int,
        )
    &&& dues.len() > 0 ==> forall|j: int|
        0 <= j < tables.len() && rows_of(dues, j).len() < (#[trigger] tables[j]).len()
            ==> comes_before(
            dues.last().ts,
            dues.last().stream as int,
            tables[j][rows_of(dues, j).len() as int].1,
            j,
        )
}

proof fn lemma_taking_stays_on_track(
    tables: Seq<Rows>,
    dues: Seq<Due>,
    before: Seq<Cursor>,
    due: Due,
    after: Seq<Cursor>,
)
    requires
        forall|j: int| 0 <= j < tables.len() ==> in_time(#[trigger] tables[j]),
        on_track(tables, dues, before),
        (Next::Message(due)).leads(tables, before, after),
    ensures
        on_track(tables, dues.push(due), after),
{
    let i = due.cursor as int;
    let more = dues.push(due);
    assert(more.drop_last() =~= dues);
    lemma_taking_follows(rows_of(dues, i), before[i], tables[i], after[i]);
    assert forall|j: int| 0 <= j < after.len() implies (#[trigger] after[j]).stream == j && follows(
        rows_of(more, j),
        after[j],
        tables[j],
    ) by {
        assert(before[j].stream == j);
    }
    assert(before[i].stream == i);
    assert(rows_of(dues, i).len() < tables[i].len());
    assert forall|a: int, b: int| 0 <= a < b < more.len() implies comes_before(
        (#[trigger] more[a]).ts,
        more[a].stream as int,
        (#[trigger] more[b]).ts,
        more[b].stream as int,
    ) by {
        assert(more[a] == dues[a]);
        if b < dues.len() {
            assert(more[b] == dues[b]);
        } else {
            assert(comes_before(dues.last().ts, dues.last().stream as int, due.ts, i));
            if a < dues.len() - 1 {
                assert(dues.last() == dues[dues.len() - 1]);
            }
        }
    }
    assert forall|j: int|
        0 <= j < tables.len() && rows_of(more, j).len() < (#[trigger] tables[j]).len() implies comes_before(
        due.ts,
        i,
        tables[j][rows_of(more, j).len() as int].1,
        j,
    ) by {
        let rows = tables[j];
        let n = rows_of(dues, j).len() as int;
        assert(follows(rows_of(dues, j), before[j], rows)) by {
            assert(before[j].stream == j);
        }
        if j == i {
            assert(number(rows[n].1) < number(rows[n + 1].1));
        } else {
            assert(!before[j].runs_dry());
            assert(before[j].page@.len() > 0);
            assert((rows_of(dues, j) + before[j].page@)[n] == before[j].page@[0]);
        }
    }
    assert forall|a: int| 0 <= a < more.len() implies (#[trigger] more[a]).stream
        < tables.len() by {
        if a < dues.len() {
            assert(more[a] == dues[a]);
        }
    }
}

proof fn lemma_on_track(
    streams: Seq<Stream>,
    tables: Seq<Rows>,
    steps: Seq<Next>,
    states: Seq<Seq<Cursor>>,
    k: int,
)
    requires
        reading(streams, tables, steps, states),
        forall|j: int| 0 <= j < tables.len() ==> in_time(#[trigger] tables[j]),
        0 <= k <= steps.len(),
    ensures
        on_track(tables, came(steps.take(k)), states[k]),
    decreases k,
{
    if k == 0 {
        assert forall|j: int| 0 <= j < states[0].len() implies (#[trigger] states[0][j]).stream == j
            && follows(rows_of(came(steps.take(0)), j), states[0][j], tables[j]) by {
            assert(states[0][j].at_start(j, streams[j]));
            assert(Rows::empty() + states[0][j].page@ =~= tables[j].take(0));
        }
    } else {
        lemma_on_track(streams, tables, steps, states, k - 1);
        let before = states[k - 1];
        let after = states[k];
        let dues = came(steps.take(k - 1));
        assert(steps.take(k).drop_last() =~= steps.take(k - 1));
        assert(steps.take(k).last() == steps[k - 1]);
        assert(steps[k - 1].leads(tables, states[k - 1], states[k - 1 + 1]));
        match steps[k - 1] {
            Next::Fill { cursor } => {
                let i = cursor as int;
                assert(before[i].stream == i);
                assert(in_time(tables[i]));
                lemma_filling_follows(rows_of(dues, i), before[i], tables[i], after[i]);
                assert forall|j: int| 0 <= j < after.len() implies (#[trigger] after[j]).stream == j
                    && follows(rows_of(dues, j), after[j], tables[j]) by {
                    assert(before[j].stream == j);
                }
            },
            Next::Message(due) => {
                lemma_taking_stays_on_track(tables, dues, before, due, after);
            },
            Next::Finished => {},
        }
    }
}

/// Read until there are no more messages, every row of every stream comes exactly once, as a message of
/// its own stream, with its own timestamp, in the order of the stream, and nothing else comes.
pub proof fn law_every_row_comes_exactly_once(
    streams: Seq<Stream>,
    tables: Seq<Rows>,
    steps: Seq<Next>,
    states: Seq<Seq<Cursor>>,
)
    requires
        reading(streams, tables, steps, states),
        forall|j: int| 0 <= j < tables.len() ==> in_time(#[trigger] tables[j]),
        steps.len() > 0,
        steps.last() is Finished,
    ensures
        forall|j: int| 0 <= j < tables.len() ==> rows_of(came(steps), j) == #[trigger] tables[j],
        forall|a: int|
            0 <= a < came(steps).len() ==> (#[trigger] came(steps)[a]).stream < streams.len(),
{
    lemma_on_track(streams, tables, steps, states, steps.len() as int);
    assert(steps.take(steps.len() as int) =~= steps);
    let dues = came(steps);
    let cursors = states.last();
    let n = steps.len() - 1;
    assert(steps[n].leads(tables, states[n], states[n + 1]));
    assert forall|j: int| 0 <= j < tables.len() implies rows_of(dues, j) == #[trigger] tables[j] by {
        assert(cursors[j].stream == j);
        assert(rows_of(dues, j) + cursors[j].page@ =~= rows_of(dues, j));
        assert(tables[j].take(tables[j].len() as int) =~= tables[j]);
    }
}

/// However far reading has come, the messages came in timestamp order over all streams, and at the same
/// time the one of the earlier stream came first.
pub proof fn law_messages_of_all_streams_come_in_order(
    streams: Seq<Stream>,
    tables: Seq<Rows>,
    steps: Seq<Next>,
    states: Seq<Seq<Cursor>>,
    a: int,
    b: int,
)
    requires
        reading(streams, tables, steps, states),
        forall|j: int| 0 <= j < tables.len() ==> in_time(#[trigger] tables[j]),
        0 <= a < b < came(steps).len(),
    ensures
        comes_before(
            came(steps)[a].ts,
            came(steps)[a].stream as int,
            came(steps)[b].ts,
            came(steps)[b].stream as int,
        ),
{
    lemma_on_track(streams, tables, steps, states, steps.len() as int);
    assert(steps.take(steps.len() as int) =~= steps);
}

/// Once there are no more messages, asking again changes nothing and says so again.
pub proof fn law_reading_stays_finished(
    tables: Seq<Rows>,
    before: Seq<Cursor>,
    cursors: Seq<Cursor>,
    next: Next,
    after: Seq<Cursor>,
)
    requires
        Next::Finished.leads(tables, before, cursors),
        next.leads(tables, cursors, after),
    ensures
        next is Finished,
        after == cursors,
{
}

// ------------------------------------------------------------------ the end
/// How many steps it takes at most to read some tables: for each of them, one for each row to take it, as
/// many again to read them, and one to see that there are no more.
pub open spec fn work(tables: Seq<Rows>) -> nat
    decreases tables.len(),
{
    if tables.len() == 0 {
        0
    } else {
        work(tables.drop_last()) + 2 * tables.last().len() + 1
    }
}

/// How much of that is left of one table.
spec fn left_of(taken: Rows, cursor: Cursor, rows: Rows) -> int {
    2 * (rows.len() - taken.len()) - cursor.page@.len() + (if cursor.done {
        0int
    } else {
        1int
    })
}

/// How much of that is left of the first tables.
spec fn left(tables: Seq<Rows>, dues: Seq<Due>, cursors: Seq<Cursor>, n: int) -> int
    decreases n,
{
    if n <= 0 {
        0
    } else {
        left(tables, dues, cursors, n - 1) + left_of(
            rows_of(dues, n - 1),
            cursors[n - 1],
            tables[n - 1],
        )
    }
}

proof fn lemma_left(tables: Seq<Rows>, dues: Seq<Due>, cursors: Seq<Cursor>, n: int)
    requires
        on_track(tables, dues, cursors),
        0 <= n <= tables.len(),
    ensures
        left(tables, dues, cursors, n) >= 0,
    decreases n,
{
    if n > 0 {
        lemma_left(tables, dues, cursors, n - 1);
        assert(cursors[n - 1].stream == n - 1);
    }
}

/// A step that gets on with one table leaves less to do.
proof fn lemma_less_is_left(
    tables: Seq<Rows>,
    dues: Seq<Due>,
    before: Seq<Cursor>,
    more: Seq<Due>,
    after: Seq<Cursor>,
    i: int,
    n: int,
)
    requires
        0 <= i < tables.len(),
        0 <= n <= tables.len(),
        left_of(rows_of(more, i), after[i], tables[i]) < left_of(
            rows_of(dues, i),
            before[i],
            tables[i],
        ),
        forall|j: int|
            0 <= j < tables.len() && j != i ==> #[trigger] after[j] == before[j] && rows_of(more, j)
                == rows_of(dues, j),
    ensures
        left(tables, more, after, n) <= left(tables, dues, before, n),
        n > i ==> left(tables, more, after, n) < left(tables, dues, before, n),
    decreases n,
{
    if n > 0 {
        lemma_less_is_left(tables, dues, before, more, after, i, n - 1);
        if n - 1 != i {
            assert(after[n - 1] == before[n - 1]);
        }
    }
}

proof fn lemma_work(tables: Seq<Rows>, cursors: Seq<Cursor>, n: int)
    requires
        0 <= n <= tables.len(),
        forall|j: int|
            0 <= j < tables.len() ==> (#[trigger] cursors[j]).page@.len() == 0 && !cursors[j].done,
    ensures
        left(tables, Seq::empty(), cursors, n) == work(tables.take(n)),
    decreases n,
{
    if n > 0 {
        lemma_work(tables, cursors, n - 1);
        assert(tables.take(n).drop_last() =~= tables.take(n - 1));
        assert(cursors[n - 1].page@.len() == 0 && !cursors[n - 1].done);
    }
}

proof fn lemma_steps(
    streams: Seq<Stream>,
    tables: Seq<Rows>,
    steps: Seq<Next>,
    states: Seq<Seq<Cursor>>,
    k: int,
)
    requires
        reading(streams, tables, steps, states),
        forall|j: int| 0 <= j < tables.len() ==> in_time(#[trigger] tables[j]),
        0 <= k <= steps.len(),
        forall|j: int| 0 <= j < k ==> !((#[trigger] steps[j]) is Finished),
    ensures
        k + left(tables, came(steps.take(k)), states[k], tables.len() as int) <= work(tables),
    decreases k,
{
    let n = tables.len() as int;
    if k == 0 {
        assert forall|j: int| 0 <= j < n implies (#[trigger] states[0][j]).page@.len() == 0
            && !states[0][j].done by {
            assert(states[0][j].at_start(j, streams[j]));
        }
        lemma_work(tables, states[0], n);
        assert(tables.take(n) =~= tables);
        assert(came(steps.take(0)) =~= Seq::empty());
    } else {
        lemma_steps(streams, tables, steps, states, k - 1);
        lemma_on_track(streams, tables, steps, states, k - 1);
        lemma_on_track(streams, tables, steps, states, k);
        let before = states[k - 1];
        let after = states[k];
        let dues = came(steps.take(k - 1));
        let more = came(steps.take(k));
        assert(steps.take(k).drop_last() =~= steps.take(k - 1));
        assert(steps.take(k).last() == steps[k - 1]);
        assert(steps[k - 1].leads(tables, states[k - 1], states[k - 1 + 1]));
        match steps[k - 1] {
            Next::Fill { cursor } => {
                lemma_less_is_left(tables, dues, before, more, after, cursor as int, n);
            },
            Next::Message(due) => {
                let i = due.cursor as int;
                assert(more.drop_last() =~= dues);
                assert(before[i].stream == i);
                lemma_less_is_left(tables, dues, before, more, after, i, n);
            },
            Next::Finished => {},
        }
    }
}

/// Reading comes to an end: after no more steps than there is work to do, there are no more messages.
pub proof fn law_reading_comes_to_an_end(
    streams: Seq<Stream>,
    tables: Seq<Rows>,
    steps: Seq<Next>,
    states: Seq<Seq<Cursor>>,
)
    requires
        reading(streams, tables, steps, states),
        forall|j: int| 0 <= j < tables.len() ==> in_time(#[trigger] tables[j]),
        forall|j: int| 0 <= j < steps.len() ==> !((#[trigger] steps[j]) is Finished),
    ensures
        steps.len() <= work(tables),
{
    let n = steps.len() as int;
    lemma_steps(streams, tables, steps, states, n);
    lemma_on_track(streams, tables, steps, states, n);
    lemma_left(tables, came(steps.take(n)), states[n], tables.len() as int);
}

/// A page holds the rows after a timestamp, in their order, up to 4096 of them.
pub proof fn law_a_page_holds_the_next_rows(rows: Rows, last_ts: F64)
    ensures
        next_page(rows, last_ts).len() <= 4096,
        next_page(rows, last_ts).is_prefix_of(
            rows.filter(|row: (i64, F64)| number(row.1) > number(last_ts)),
        ),
        next_page(rows, last_ts).len() < 4096 ==> next_page(rows, last_ts) == rows.filter(
            |row: (i64, F64)| number(row.1) > number(last_ts),
        ),
{
    let later = rows.filter(|row: (i64, F64)| number(row.1) > number(last_ts));
    let page = next_page(rows, last_ts);
    assert(page =~= later.subrange(0, page.len() as int));
}

} // verus!
