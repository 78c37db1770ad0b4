//! Ordering a report by self time.
use std::time::Duration;
use vstd::prelude::*;
use crate::clock::duration_nanos;
use crate::scope_view::{timings_view, Entry};

verus! {

/// The lines of `rows` whose self time is `time`, in their order.
pub open spec fn with_time<I>(rows: Seq<Entry<I>>, time: nat) -> Seq<Entry<I>> {
    rows.filter(|row: Entry<I>| row.1 == time)
}

/// No line of `rows` has a longer self time than a line before it.
pub open spec fn non_increasing<I>(rows: Seq<Entry<I>>) -> bool {
    forall|i: int, j: int| 0 <= i <= j < rows.len() ==> rows[i].1 >= rows[j].1
}

/// Whether `ranked` is `rows` ordered by self time, longest first, with
/// the lines of equal self time in the order they have in `rows`.
pub open spec fn is_ranking<I>(rows: Seq<Entry<I>>, ranked: Seq<Entry<I>>) -> bool {
    &&& non_increasing(ranked)
    &&& forall|time: nat| with_time(ranked, time) == with_time(rows, time)
}

/// None of `rows` has the self time `time`, so none is selected.
proof fn lemma_with_time_none<I>(rows: Seq<Entry<I>>, time: nat)
    requires
        forall|i: int| 0 <= i < rows.len() ==> rows[i].1 != time,
    ensures
        with_time(rows, time) == Seq::<Entry<I>>::empty(),
    decreases rows.len(),
{
    reveal(Seq::filter);
    if rows.len() > 0 {
        lemma_with_time_none(rows.drop_last(), time);
    }
}

/// What a line put in at its place does to a ranking: the order holds, and
/// the line comes last among those of its self time.
proof fn lemma_insert_ranked<I>(ranked: Seq<Entry<I>>, at: int, row: Entry<I>)
    requires
        non_increasing(ranked),
        0 <= at <= ranked.len(),
        forall|j: int| 0 <= j < at ==> ranked[j].1 >= row.1,
        forall|j: int| at <= j < ranked.len() ==> ranked[j].1 < row.1,
    ensures
        non_increasing(ranked.insert(at, row)),
        forall|time: nat| #[trigger]
            with_time(ranked.insert(at, row), time) == with_time(ranked.push(row), time),
{
    let before = ranked.take(at);
    let after = ranked.skip(at);
    assert(ranked.insert(at, row) =~= before + seq![row] + after);
    assert(ranked.push(row) =~= before + after + seq![row]);
    assert forall|time: nat| #[trigger]
        with_time(ranked.insert(at, row), time) == with_time(ranked.push(row), time) by {
        let pred = |r: Entry<I>| r.1 == time;
        Seq::filter_distributes_over_add(before + seq![row], after, pred);
        Seq::filter_distributes_over_add(before, seq![row], pred);
        Seq::filter_distributes_over_add(before + after, seq![row], pred);
        Seq::filter_distributes_over_add(before, after, pred);
        if row.1 == time {
            lemma_with_time_none(after, time);
        } else {
            lemma_with_time_none(seq![row], time);
        }
    }
}

/// What the last line of `rows` adds to the selection of a self time.
proof fn lemma_with_time_last<I>(rows: Seq<Entry<I>>, time: nat)
    requires
        rows.len() > 0,
    ensures
        with_time(rows, time) == if rows.last().1 == time {
            with_time(rows.drop_last(), time).push(rows.last())
        } else {
            with_time(rows.drop_last(), time)
        },
{
    reveal(Seq::filter);
}

/// Two orderings by self time that select the same lines, in the same
/// order, for every self time are the same ordering.
pub proof fn lemma_same_selections_same_order<I>(a: Seq<Entry<I>>, b: Seq<Entry<I>>)
    requires
        non_increasing(a),
        non_increasing(b),
        forall|time: nat| with_time(a, time) == with_time(b, time),
    ensures
        a == b,
    decreases a.len(),
{
    if a.len() == 0 {
        if b.len() > 0 {
            lemma_with_time_last(b, b.last().1);
            lemma_with_time_none(a, b.last().1);
            assert(with_time(a, b.last().1) == with_time(b, b.last().1));
        }
        assert(a =~= b);
    } else {
        let low = a.last().1;
        lemma_with_time_last(a, low);
        assert(with_time(a, low) == with_time(b, low));
        assert(with_time(a, low).last() == a.last());
        if b.len() == 0 {
            lemma_with_time_none(b, low);
        }
        assert(b.len() > 0);
        let other = b.last().1;
        lemma_with_time_last(b, other);
        assert(with_time(a, other) == with_time(b, other));
        assert(with_time(b, other).last() == b.last());
        if other < low {
            assert forall|i: int| 0 <= i < a.len() implies a[i].1 != other by {
                assert(a[i].1 >= a[a.len() - 1].1);
            }
            lemma_with_time_none(a, other);
        }
        if low < other {
            assert forall|i: int| 0 <= i < b.len() implies b[i].1 != low by {
                assert(b[i].1 >= b[b.len() - 1].1);
            }
            lemma_with_time_none(b, low);
        }
        assert(low == other);
        assert(a.last() == b.last());
        assert forall|time: nat|
            with_time(a.drop_last(), time) == with_time(b.drop_last(), time) by {
            lemma_with_time_last(a, time);
            lemma_with_time_last(b, time);
            assert(with_time(a, time) == with_time(b, time));
            if time == low {
                assert(with_time(a.drop_last(), time) =~= with_time(a, time).drop_last());
                assert(with_time(b.drop_last(), time) =~= with_time(b, time).drop_last());
            }
        }
        lemma_same_selections_same_order(a.drop_last(), b.drop_last());
        assert(a =~= a.drop_last().push(a.last()));
        assert(b =~= b.drop_last().push(b.last()));
    }
}

/// A report has one ranking: two orderings of it that both go by self
/// time, longest first, and keep equal self times in the order of the
/// report are equal. Ranking the same report twice gives the same order.
pub proof fn lemma_ranking_is_unique<I>(
    rows: Seq<Entry<I>>,
    first: Seq<Entry<I>>,
    second: Seq<Entry<I>>,
)
    requires
        is_ranking(rows, first),
        is_ranking(rows, second),
    ensures
        first == second,
{
    assert forall|time: nat| with_time(first, time) == with_time(second, time) by {
        assert(with_time(first, time) == with_time(rows, time));
        assert(with_time(second, time) == with_time(rows, time));
    }
    lemma_same_selections_same_order(first, second);
}

/// A line occurs in `rows` as often as among the lines of its self time.
proof fn lemma_count_in_selection<I>(rows: Seq<Entry<I>>, line: Entry<I>)
    ensures
        rows.to_multiset().count(line) == with_time(rows, line.1).to_multiset().count(line),
    decreases rows.len(),
{
    if rows.len() == 0 {
        lemma_with_time_none(rows, line.1);
        assert(rows =~= with_time(rows, line.1));
    } else {
        let rest = rows.drop_last();
        let last = rows.last();
        lemma_count_in_selection(rest, line);
        lemma_with_time_last(rows, line.1);
        vstd::seq_lib::to_multiset_build(rest, last);
        vstd::seq_lib::to_multiset_build(with_time(rest, line.1), last);
        assert(rows =~= rest.push(last));
        assert(rows.to_multiset() =~= rest.to_multiset().insert(last));
        if last.1 == line.1 {
            assert(with_time(rows, line.1).to_multiset() =~= with_time(
                rest,
                line.1,
            ).to_multiset().insert(last));
        } else {
            assert(last != line);
        }
    }
}

/// A ranking holds the lines of the report, each as often as the report
/// does: none is lost, none is added.
pub proof fn lemma_ranking_keeps_every_line<I>(rows: Seq<Entry<I>>, ranked: Seq<Entry<I>>)
    requires
        is_ranking(rows, ranked),
    ensures
        ranked.to_multiset() == rows.to_multiset(),
        ranked.len() == rows.len(),
{
    assert forall|line: Entry<I>|
        ranked.to_multiset().count(line) == rows.to_multiset().count(line) by {
        lemma_count_in_selection(rows, line);
        lemma_count_in_selection(ranked, line);
        assert(with_time(ranked, line.1) == with_time(rows, line.1));
    }
    assert(ranked.to_multiset() =~= rows.to_multiset());
    vstd::seq_lib::to_multiset_len(rows);
    vstd::seq_lib::to_multiset_len(ranked);
}

/// A ranking of a ranking is that ranking: ordering again changes nothing.
pub proof fn lemma_ranking_again_changes_nothing<I>(
    rows: Seq<Entry<I>>,
    ranked: Seq<Entry<I>>,
    again: Seq<Entry<I>>,
)
    requires
        is_ranking(rows, ranked),
        is_ranking(ranked, again),
    ensures
        again == ranked,
{
    assert(is_ranking(ranked, ranked));
    lemma_ranking_is_unique(ranked, again, ranked);
}

/// Orders a report by self time, longest first. Lines of equal self time
/// keep the order they came in.
pub fn rank<I>(timings: Vec<(I, Duration, u32)>) -> (ranked: Vec<(I, Duration, u32)>)
    ensures
        is_ranking(timings_view(timings@), timings_view(ranked@)),
{
    let mut ranked: Vec<(I, Duration, u32)> = Vec::new();
    let ghost rows = timings_view(timings@);
    proof {
        assert(timings_view(ranked@) =~= rows.take(0));
    }
    for row in it: timings
        invariant
            it.seq() == timings@,
            rows == timings_view(timings@),
            non_increasing(timings_view(ranked@)),
            forall|time: nat|
                with_time(timings_view(ranked@), time) == with_time(
                    rows.take(it.index() as int),
                    time,
                ),
    {
        let key = row.1.as_nanos();
        let mut at: usize = 0;
        while at < ranked.len() && ranked[at].1.as_nanos() >= key
            invariant
                at <= ranked.len(),
                key == duration_nanos(row.1),
                forall|j: int| 0 <= j < at ==> timings_view(ranked@)[j].1 >= key,
            decreases ranked.len() - at,
        {
            at += 1;
        }
        proof {
            let held = timings_view(ranked@);
            let entry = (row.0, duration_nanos(row.1), row.2 as nat);
            assert(rows[it.index() as int] == entry);
            assert(at < ranked.len() ==> held[at as int].1 < key);
            assert forall|j: int| at <= j < held.len() implies held[j].1 < entry.1 by {
                assert(held[at as int].1 >= held[j].1);
            }
            lemma_insert_ranked(held, at as int, entry);
            assert(timings_view(ranked@.insert(at as int, row)) =~= held.insert(at as int, entry));
            assert(rows.take(it.index() + 1) =~= rows.take(it.index() as int).push(entry));
            assert forall|time: nat|
                with_time(held.insert(at as int, entry), time) == with_time(
                    rows.take(it.index() + 1),
                    time,
                ) by {
                let pred = |r: Entry<I>| r.1 == time;
                let seen = rows.take(it.index() as int);
                Seq::filter_distributes_over_add(held, seq![entry], pred);
                Seq::filter_distributes_over_add(seen, seq![entry], pred);
                assert(held.push(entry) =~= held + seq![entry]);
                assert(seen.push(entry) =~= seen + seq![entry]);
                assert(with_time(held, time) == with_time(seen, time));
                assert(with_time(held.insert(at as int, entry), time) == with_time(
                    held.push(entry),
                    time,
                ));
            }
        }
        ranked.insert(at, row);
    }
    proof {
        assert(rows.take(rows.len() as int) =~= rows);
    }
    ranked
}

} // verus!
