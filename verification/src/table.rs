//! The text table of a report: column widths, padding and rule lines.
use vstd::prelude::*;
use vstd::string::*;
use vstd::utf8::encode_utf8;

verus! {

/// One line of a table: identifier, duration and fork count as text.
pub type Line = (Seq<char>, Seq<char>, Seq<char>);

/// The widths of the three columns.
pub type Widths = (nat, nat, nat);

/// The space a text takes in a column: the length of its UTF-8 form.
pub open spec fn byte_len(text: Seq<char>) -> nat {
    encode_utf8(text).len()
}

/// The larger of two widths.
pub open spec fn wider(a: nat, b: nat) -> nat {
    if a >= b {
        a
    } else {
        b
    }
}

/// The widths that fit every cell of `lines`, column by column.
pub open spec fn widest(lines: Seq<Line>) -> Widths
    decreases lines.len(),
{
    if lines.len() == 0 {
        (0, 0, 0)
    } else {
        let rest = widest(lines.drop_last());
        let line = lines.last();
        (
            wider(rest.0, byte_len(line.0)),
            wider(rest.1, byte_len(line.1)),
            wider(rest.2, byte_len(line.2)),
        )
    }
}

/// The labels above the three columns.
pub open spec fn header() -> Line {
    ("Identifier"@, "Duration"@, "Times Forked"@)
}

/// The widths of the table's columns: each fits its label and every cell.
pub open spec fn column_widths(lines: Seq<Line>) -> Widths {
    let cells = widest(lines);
    (
        wider(cells.0, byte_len(header().0)),
        wider(cells.1, byte_len(header().1)),
        wider(cells.2, byte_len(header().2)),
    )
}

/// `count` times the character `glyph`.
pub open spec fn run(glyph: char, count: nat) -> Seq<char> {
    Seq::new(count, |i: int| glyph)
}

/// How many spaces fill `text` up to `width` characters.
pub open spec fn padding(text: Seq<char>, width: nat) -> nat {
    if text.len() < width {
        (width - text.len()) as nat
    } else {
        0
    }
}

/// `text`, left-aligned in `width` characters.
pub open spec fn padded(text: Seq<char>, width: nat) -> Seq<char> {
    text + run(' ', padding(text, width))
}

/// A rule line: for each column a run of dashes two longer than the column
/// is wide, between plus signs.
pub open spec fn rule_line(widths: Widths) -> Seq<char> {
    seq!['+'] + run('-', widths.0 + 2) + seq!['+'] + run('-', widths.1 + 2) + seq!['+'] + run(
        '-',
        widths.2 + 2,
    ) + seq!['+']
}

/// A row: each cell padded to its column, one space on either side of it,
/// between pipes.
pub open spec fn row_line(line: Line, widths: Widths) -> Seq<char> {
    seq!['|', ' '] + padded(line.0, widths.0) + seq![' ', '|', ' '] + padded(line.1, widths.1)
        + seq![' ', '|', ' '] + padded(line.2, widths.2) + seq![' ', '|']
}

/// The rows of `lines`, each ended by a line feed.
pub open spec fn body(lines: Seq<Line>, widths: Widths) -> Seq<char>
    decreases lines.len(),
{
    if lines.len() == 0 {
        Seq::empty()
    } else {
        body(lines.drop_last(), widths) + row_line(lines.last(), widths) + seq!['\n']
    }
}

/// The table of `lines`: a rule, the labels, a rule, one row for each
/// line, and a closing rule after which no line feed follows.
pub open spec fn table_text(lines: Seq<Line>) -> Seq<char> {
    let widths = column_widths(lines);
    rule_line(widths) + seq!['\n'] + row_line(header(), widths) + seq!['\n'] + rule_line(widths)
        + seq!['\n'] + body(lines, widths) + rule_line(widths)
}

/// The lines of a table as the executable code holds them.
pub open spec fn lines_view(rows: Seq<(String, String, String)>) -> Seq<Line> {
    rows.map_values(|row: (String, String, String)| (row.0@, row.1@, row.2@))
}

/// The decimal digit for `d`.
pub open spec fn digit_char(d: nat) -> char {
    seq!['0', '1', '2', '3', '4', '5', '6', '7', '8', '9'][d as int]
}

/// `n` in decimal digits, without leading zeros.
pub open spec fn decimal_digits(n: nat) -> Seq<char>
    decreases n,
{
    if n < 10 {
        seq![digit_char(n)]
    } else {
        decimal_digits(n / 10).push(digit_char(n % 10))
    }
}

/// A text takes at least one byte for each of its characters.
pub proof fn lemma_byte_len_covers_chars(text: Seq<char>)
    ensures
        text.len() <= byte_len(text),
    decreases text.len(),
{
    if text.len() > 0 {
        lemma_byte_len_covers_chars(text.drop_first());
        assert(vstd::utf8::encode_scalar(text[0] as u32).len() >= 1);
    }
}

/// No cell is wider than the widest of its column.
pub proof fn lemma_widest_covers(lines: Seq<Line>, k: int)
    requires
        0 <= k < lines.len(),
    ensures
        byte_len(lines[k].0) <= widest(lines).0,
        byte_len(lines[k].1) <= widest(lines).1,
        byte_len(lines[k].2) <= widest(lines).2,
    decreases lines.len(),
{
    if k < lines.len() - 1 {
        lemma_widest_covers(lines.drop_last(), k);
    }
}

/// Every cell has room in its column: none has more characters than the
/// column is wide.
pub proof fn lemma_columns_fit(lines: Seq<Line>, k: int)
    requires
        0 <= k < lines.len(),
    ensures
        lines[k].0.len() <= column_widths(lines).0,
        lines[k].1.len() <= column_widths(lines).1,
        lines[k].2.len() <= column_widths(lines).2,
{
    lemma_widest_covers(lines, k);
    lemma_byte_len_covers_chars(lines[k].0);
    lemma_byte_len_covers_chars(lines[k].1);
    lemma_byte_len_covers_chars(lines[k].2);
}

/// Every label has room in its column, whatever the lines are.
pub proof fn lemma_labels_fit(lines: Seq<Line>)
    ensures
        header().0.len() <= column_widths(lines).0,
        header().1.len() <= column_widths(lines).1,
        header().2.len() <= column_widths(lines).2,
{
    lemma_byte_len_covers_chars(header().0);
    lemma_byte_len_covers_chars(header().1);
    lemma_byte_len_covers_chars(header().2);
}

/// The shape of a rule line: plus signs at the four column borders and
/// dashes between them, two more for each column than the column is wide.
pub proof fn lemma_rule_shape(widths: Widths)
    ensures
        rule_line(widths).len() == widths.0 + widths.1 + widths.2 + 10,
        forall|i: int|
            0 <= i < rule_line(widths).len() ==> #[trigger] rule_line(widths)[i] == if i == 0 || i
                == widths.0 + 3 || i == widths.0 + widths.1 + 6 || i == widths.0 + widths.1
                + widths.2 + 9 {
                '+'
            } else {
                '-'
            },
{
}

/// The shape of a row whose cells have room in their columns: as long as
/// a rule line, pipes where the rule line has plus signs, one space on
/// either side of each cell's column, and each cell at the left of its
/// column with spaces after it.
pub proof fn lemma_row_shape(line: Line, widths: Widths)
    requires
        line.0.len() <= widths.0,
        line.1.len() <= widths.1,
        line.2.len() <= widths.2,
    ensures
        row_line(line, widths).len() == rule_line(widths).len(),
        forall|i: int|
            0 <= i < row_line(line, widths).len() ==> #[trigger] row_line(line, widths)[i] == {
                let second = widths.0 + 3;
                let third = widths.0 + widths.1 + 6;
                let end = widths.0 + widths.1 + widths.2 + 9;
                if i == 0 || i == second || i == third || i == end {
                    '|'
                } else if 2 <= i < 2 + line.0.len() {
                    line.0[i - 2]
                } else if second + 2 <= i < second + 2 + line.1.len() {
                    line.1[i - second - 2]
                } else if third + 2 <= i < third + 2 + line.2.len() {
                    line.2[i - third - 2]
                } else {
                    ' '
                }
            },
{
}

/// In a table every row is as long as the rule lines, and so is the row
/// of labels.
pub proof fn lemma_rows_align(lines: Seq<Line>)
    ensures
        row_line(header(), column_widths(lines)).len() == rule_line(column_widths(lines)).len(),
        forall|k: int|
            0 <= k < lines.len() ==> (#[trigger] row_line(lines[k], column_widths(lines))).len()
                == rule_line(column_widths(lines)).len(),
{
    lemma_labels_fit(lines);
    lemma_row_shape(header(), column_widths(lines));
    assert forall|k: int| 0 <= k < lines.len() implies (#[trigger] row_line(
        lines[k],
        column_widths(lines),
    )).len() == rule_line(column_widths(lines)).len() by {
        lemma_columns_fit(lines, k);
        lemma_row_shape(lines[k], column_widths(lines));
    }
}

fn digit_text(d: u32) -> (text: &'static str)
    requires
        d < 10,
    ensures
        text@ == seq![digit_char(d as nat)],
{
    proof {
        reveal_strlit("0");
        reveal_strlit("1");
        reveal_strlit("2");
        reveal_strlit("3");
        reveal_strlit("4");
        reveal_strlit("5");
        reveal_strlit("6");
        reveal_strlit("7");
        reveal_strlit("8");
        reveal_strlit("9");
    }
    let text = if d == 0 {
        "0"
    } else if d == 1 {
        "1"
    } else if d == 2 {
        "2"
    } else if d == 3 {
        "3"
    } else if d == 4 {
        "4"
    } else if d == 5 {
        "5"
    } else if d == 6 {
        "6"
    } else if d == 7 {
        "7"
    } else if d == 8 {
        "8"
    } else {
        "9"
    };
    assert(text@ =~= seq![digit_char(d as nat)]);
    text
}

fn push_decimal(buf: &mut String, n: u32)
    ensures
        final(buf)@ == old(buf)@ + decimal_digits(n as nat),
    decreases n,
{
    if n >= 10 {
        push_decimal(buf, n / 10);
    }
    buf.append(digit_text(n % 10));
    assert(buf@ =~= old(buf)@ + decimal_digits(n as nat));
}

/// Writes `n` in decimal digits.
pub fn decimal_text(n: u32) -> (text: String)
    ensures
        text@ == decimal_digits(n as nat),
{
    let mut text = String::new();
    push_decimal(&mut text, n);
    assert(text@ =~= decimal_digits(n as nat));
    text
}

fn push_run(buf: &mut String, unit: &str, count: usize)
    requires
        unit@.len() == 1,
    ensures
        final(buf)@ == old(buf)@ + run(unit@[0], count as nat),
{
    let mut done: usize = 0;
    assert(buf@ =~= old(buf)@ + run(unit@[0], 0));
    while done < count
        invariant
            done <= count,
            unit@.len() == 1,
            buf@ == old(buf)@ + run(unit@[0], done as nat),
        decreases count - done,
    {
        buf.append(unit);
        assert(buf@ =~= old(buf)@ + run(unit@[0], (done + 1) as nat));
        done += 1;
    }
}

fn push_padded(buf: &mut String, text: &str, width: usize)
    ensures
        final(buf)@ == old(buf)@ + padded(text@, width as nat),
{
    proof {
        reveal_strlit(" ");
    }
    buf.append(text);
    let chars = text.unicode_len();
    let fill = if chars < width {
        width - chars
    } else {
        0
    };
    push_run(buf, " ", fill);
    assert(buf@ =~= old(buf)@ + padded(text@, width as nat));
}

fn push_rule(buf: &mut String, widths: (usize, usize, usize))
    ensures
        final(buf)@ == old(buf)@ + rule_line((widths.0 as nat, widths.1 as nat, widths.2 as nat)),
{
    proof {
        reveal_strlit("+");
        reveal_strlit("-");
        reveal_strlit("--");
    }
    buf.append("+");
    push_run(buf, "-", widths.0);
    buf.append("--");
    buf.append("+");
    push_run(buf, "-", widths.1);
    buf.append("--");
    buf.append("+");
    push_run(buf, "-", widths.2);
    buf.append("--");
    buf.append("+");
    assert(buf@ =~= old(buf)@ + rule_line(
        (widths.0 as nat, widths.1 as nat, widths.2 as nat),
    ));
}

fn push_row(buf: &mut String, first: &str, second: &str, third: &str, widths: (usize, usize, usize))
    ensures
        final(buf)@ == old(buf)@ + row_line(
            (first@, second@, third@),
            (widths.0 as nat, widths.1 as nat, widths.2 as nat),
        ),
{
    proof {
        reveal_strlit("| ");
        reveal_strlit(" | ");
        reveal_strlit(" |");
    }
    buf.append("| ");
    push_padded(buf, first, widths.0);
    buf.append(" | ");
    push_padded(buf, second, widths.1);
    buf.append(" | ");
    push_padded(buf, third, widths.2);
    buf.append(" |");
    assert(buf@ =~= old(buf)@ + row_line(
        (first@, second@, third@),
        (widths.0 as nat, widths.1 as nat, widths.2 as nat),
    ));
}

fn text_width(text: &str) -> (width: usize)
    ensures
        width == byte_len(text@),
{
    text.as_bytes().len()
}

fn measure(rows: &Vec<(String, String, String)>) -> (widths: (usize, usize, usize))
    ensures
        (widths.0 as nat, widths.1 as nat, widths.2 as nat) == column_widths(lines_view(rows@)),
{
    let ghost lines = lines_view(rows@);
    let mut longest: (usize, usize, usize) = (0, 0, 0);
    let mut at: usize = 0;
    while at < rows.len()
        invariant
            at <= rows.len(),
            lines == lines_view(rows@),
            (longest.0 as nat, longest.1 as nat, longest.2 as nat) == widest(lines.take(at as int)),
        decreases rows.len() - at,
    {
        let row = &rows[at];
        let first = text_width(row.0.as_str());
        let second = text_width(row.1.as_str());
        let third = text_width(row.2.as_str());
        proof {
            assert(lines.take(at + 1).drop_last() =~= lines.take(at as int));
            assert(lines.take(at + 1).last() == (row.0@, row.1@, row.2@));
        }
        longest = (
            if longest.0 >= first { longest.0 } else { first },
            if longest.1 >= second { longest.1 } else { second },
            if longest.2 >= third { longest.2 } else { third },
        );
        at += 1;
    }
    assert(lines.take(rows.len() as int) =~= lines);
    let first = text_width("Identifier");
    let second = text_width("Duration");
    let third = text_width("Times Forked");
    (
        if longest.0 >= first { longest.0 } else { first },
        if longest.1 >= second { longest.1 } else { second },
        if longest.2 >= third { longest.2 } else { third },
    )
}

/// Lays `rows` out as a table, in the order given: a rule, the labels, a
/// rule, one row for each of `rows`, a rule.
pub fn render_table(rows: &Vec<(String, String, String)>) -> (table: String)
    ensures
        table@ == table_text(lines_view(rows@)),
{
    proof {
        reveal_strlit("\n");
    }
    let ghost lines = lines_view(rows@);
    let widths = measure(rows);
    let ghost spec_widths = column_widths(lines);
    let mut buf = String::new();
    push_rule(&mut buf, widths);
    buf.append("\n");
    push_row(&mut buf, "Identifier", "Duration", "Times Forked", widths);
    buf.append("\n");
    push_rule(&mut buf, widths);
    buf.append("\n");
    let ghost top = buf@;
    assert(top =~= rule_line(spec_widths) + seq!['\n'] + row_line(header(), spec_widths)
        + seq!['\n'] + rule_line(spec_widths) + seq!['\n']);
    let mut at: usize = 0;
    assert(buf@ =~= top + body(lines.take(0), spec_widths));
    while at < rows.len()
        invariant
            at <= rows.len(),
            lines == lines_view(rows@),
            spec_widths == (widths.0 as nat, widths.1 as nat, widths.2 as nat),
            buf@ == top + body(lines.take(at as int), spec_widths),
        decreases rows.len() - at,
    {
        let row = &rows[at];
        proof {
            reveal_strlit("\n");
            assert(lines.take(at + 1).drop_last() =~= lines.take(at as int));
            assert(lines.take(at + 1).last() == (row.0@, row.1@, row.2@));
        }
        push_row(&mut buf, row.0.as_str(), row.1.as_str(), row.2.as_str(), widths);
        buf.append("\n");
        assert(buf@ =~= top + body(lines.take(at + 1), spec_widths));
        at += 1;
    }
    assert(lines.take(rows.len() as int) =~= lines);
    push_rule(&mut buf, widths);
    assert(buf@ =~= table_text(lines));
    buf
}

} // verus!
