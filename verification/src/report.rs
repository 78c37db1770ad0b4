//! From a report to its table: ranking, wording and layout together.
use std::fmt::Display;
use std::time::Duration;
use vstd::prelude::*;
use vstd::string::*;
use crate::clock::{debug_text, duration_debug_text, duration_nanos};
use crate::ranking::{is_ranking, lemma_ranking_is_unique, rank};
use crate::scope_view::{timings_view, Entry};
use crate::table::{decimal_digits, decimal_text, lines_view, render_table, table_text, Line};

verus! {

/// Whether `names` are texts that the identifiers of `rows` were formatted
/// to, one for one.
pub open spec fn names_of<I: Display>(rows: Seq<Entry<I>>, names: Seq<String>) -> bool {
    &&& names.len() == rows.len()
    &&& forall|i: int|
        0 <= i < rows.len() ==> to_string_from_display_ensures::<I>(
            &(#[trigger] rows[i]).0,
            names[i],
        )
}

/// The lines of the table of `rows`: the identifier by its name, the self
/// time as a `Duration` prints it, the fork count in decimal digits.
pub open spec fn table_lines<I>(rows: Seq<Entry<I>>, names: Seq<String>) -> Seq<Line> {
    Seq::new(
        rows.len(),
        |i: int| (names[i]@, duration_debug_text(rows[i].1), decimal_digits(rows[i].2)),
    )
}

/// Whether `table` is the table of the report `rows`: its lines ordered by
/// self time, longest first, and laid out under the three labels.
pub open spec fn is_pretty_table<I: Display>(rows: Seq<Entry<I>>, table: Seq<char>) -> bool {
    exists|ranked: Seq<Entry<I>>, names: Seq<String>|
        {
            &&& is_ranking(rows, ranked)
            &&& names_of(ranked, names)
            &&& table == table_text(#[trigger] table_lines(ranked, names))
        }
}

/// A report and the names of its identifiers determine the table: whatever
/// ranking of the report is laid out, the lines are the same, and so is
/// every character of the table.
pub proof fn lemma_table_is_determined<I>(
    rows: Seq<Entry<I>>,
    first: Seq<Entry<I>>,
    second: Seq<Entry<I>>,
    names: Seq<String>,
)
    requires
        is_ranking(rows, first),
        is_ranking(rows, second),
    ensures
        table_text(table_lines(first, names)) == table_text(table_lines(second, names)),
{
    lemma_ranking_is_unique(rows, first, second);
}

/// Words each line of a report, in the order given.
pub fn describe<I: Display>(timings: &Vec<(I, Duration, u32)>) -> (rows: Vec<
    (String, String, String),
>)
    ensures
        exists|names: Seq<String>|
            {
                &&& names_of(timings_view(timings@), names)
                &&& lines_view(rows@) == #[trigger] table_lines(timings_view(timings@), names)
            },
{
    let mut rows: Vec<(String, String, String)> = Vec::new();
    let ghost mut names: Seq<String> = Seq::empty();
    let mut at: usize = 0;
    while at < timings.len()
        invariant
            at <= timings.len(),
            rows.len() == at,
            names.len() == at,
            forall|i: int|
                0 <= i < at ==> to_string_from_display_ensures::<I>(
                    &(#[trigger] timings@[i]).0,
                    names[i],
                ),
            forall|i: int|
                0 <= i < at ==> (#[trigger] rows@[i]).0 == names[i] && rows@[i].1@
                    == duration_debug_text(duration_nanos(timings@[i].1)) && rows@[i].2@
                    == decimal_digits(timings@[i].2 as nat),
        decreases timings.len() - at,
    {
        let timing = &timings[at];
        let name = timing.0.to_string();
        proof {
            names = names.push(name);
        }
        rows.push((name, debug_text(&timing.1), decimal_text(timing.2)));
        at += 1;
    }
    proof {
        let entries = timings_view(timings@);
        assert forall|i: int| 0 <= i < entries.len() implies to_string_from_display_ensures::<I>(
            &(#[trigger] entries[i]).0,
            names[i],
        ) by {
            assert(entries[i].0 == timings@[i].0);
        }
        assert(lines_view(rows@) =~= table_lines(entries, names));
    }
    rows
}

/// Renders a report as a table, ordered by self time, longest first; lines
/// of equal self time keep the order they came in.
pub fn pretty_table<I: Display>(timings: Vec<(I, Duration, u32)>) -> (table: String)
    ensures
        is_pretty_table(timings_view(timings@), table@),
{
    let ranked = rank(timings);
    let rows = describe(&ranked);
    render_table(&rows)
}

} // verus!
