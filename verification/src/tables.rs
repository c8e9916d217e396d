//! Console table layout: each row is a right-aligned timestamp cell, two
//! spaces, and a message cell wrapped to a fixed width, with continuation
//! lines indented under the message column.

use vstd::prelude::*;

use unicode_segmentation::UnicodeSegmentation;

use crate::text::{pad_chars, spaces};

verus! {

/// The column the messages are wrapped to.
pub const WRAP_WIDTH: usize = 80;

pub uninterp spec fn wrapped(s: Seq<char>, width: usize) -> Seq<Seq<char>>;

/// Relies on textwrap::wrap with a plain width: how a line wraps depends
/// on the text and the width alone.
#[verifier::external_body]
fn wrap_text(s: &str, width: usize) -> (r: Vec<String>)
    ensures
        r.deep_view() == wrapped(s@, width),
{
    let mut out: Vec<String> = Vec::new();
    for piece in textwrap::wrap(s, width) {
        out.push(piece.into_owned());
    }
    out
}

pub uninterp spec fn grapheme_len(s: Seq<char>) -> nat;

/// Relies on unicode_segmentation's `graphemes(true)`: how many extended
/// grapheme clusters a string holds depends on its characters alone.
#[verifier::external_body]
fn grapheme_count(s: &str) -> (r: usize)
    ensures
        r as nat == grapheme_len(s@),
{
    s.graphemes(true).count()
}

/// The timestamp cell: the timestamp, right-aligned to `width` grapheme
/// clusters; one already wider is left as it is.
pub open spec fn ts_cell(ts: Seq<char>, width: nat) -> Seq<char> {
    if grapheme_len(ts) <= width {
        pad_chars((width - grapheme_len(ts)) as nat) + ts
    } else {
        ts
    }
}

/// The indent a continuation line stands under: the timestamp column plus
/// the two-space gap.
pub open spec fn col_pad(width: nat) -> Seq<char> {
    pad_chars(width) + seq![' ', ' ']
}

/// The continuation lines: each on its own line, indented.
pub open spec fn tail_parts(rows: Seq<Seq<char>>, pad: Seq<char>) -> Seq<char>
    decreases rows.len(),
{
    if rows.len() == 0 {
        seq![]
    } else {
        seq!['\n'] + pad + rows.first() + tail_parts(rows.drop_first(), pad)
    }
}

/// Wrapped message rows joined into one cell: the first row as it is, each
/// later row on a new line behind the indent.
pub open spec fn parts_spec(rows: Seq<Seq<char>>, pad: Seq<char>) -> Seq<char> {
    if rows.len() == 0 {
        seq![]
    } else {
        rows.first() + tail_parts(rows.drop_first(), pad)
    }
}

/// The message cell of a row.
pub open spec fn msg_cell(msg: Seq<char>, width: nat) -> Seq<char> {
    let rows = wrapped(msg, WRAP_WIDTH);
    if rows.len() == 1 {
        rows[0]
    } else {
        parts_spec(rows, col_pad(width))
    }
}

/// One laid-out table line.
pub open spec fn table_line(ts: Seq<char>, msg: Seq<char>, width: nat) -> Seq<char> {
    ts_cell(ts, width) + seq![' ', ' '] + msg_cell(msg, width)
}

/// The widest timestamp, in grapheme clusters.
pub open spec fn max_ts_width(rows: Seq<(Seq<char>, Seq<char>)>) -> nat
    decreases rows.len(),
{
    if rows.len() == 0 {
        0
    } else {
        let rest = max_ts_width(rows.drop_last());
        if grapheme_len(rows.last().0) > rest {
            grapheme_len(rows.last().0)
        } else {
            rest
        }
    }
}

proof fn lemma_tail_parts_push(rows: Seq<Seq<char>>, row: Seq<char>, pad: Seq<char>)
    ensures
        tail_parts(rows.push(row), pad) == tail_parts(rows, pad) + (seq!['\n'] + pad + row),
    decreases rows.len(),
{
    if rows.len() == 0 {
        assert(rows.push(row).first() == row);
        assert(rows.push(row).drop_first() =~= Seq::<Seq<char>>::empty());
        assert(tail_parts(Seq::<Seq<char>>::empty(), pad) == Seq::<char>::empty());
        assert(tail_parts(rows.push(row), pad) == seq!['\n'] + pad + row + tail_parts(
            Seq::<Seq<char>>::empty(),
            pad,
        ));
        assert(tail_parts(rows, pad) == Seq::<char>::empty());
        assert(tail_parts(rows.push(row), pad) =~= tail_parts(rows, pad) + (seq!['\n'] + pad
            + row));
    } else {
        assert(rows.push(row).first() == rows.first());
        assert(rows.push(row).drop_first() =~= rows.drop_first().push(row));
        lemma_tail_parts_push(rows.drop_first(), row, pad);
        assert(tail_parts(rows.push(row), pad) =~= tail_parts(rows, pad) + (seq!['\n'] + pad
            + row));
    }
}

/// The widest timestamp of the rows, in grapheme clusters: what the
/// timestamp column is padded to.
pub fn max_timestamp_width(lines: &Vec<(String, String)>) -> (r: usize)
    ensures
        r as nat == max_ts_width(lines.deep_view()),
{
    let ghost deep = lines.deep_view();
    let mut m: usize = 0;
    let mut i: usize = 0;
    proof {
        assert(deep.take(0) =~= Seq::<(Seq<char>, Seq<char>)>::empty());
    }
    while i < lines.len()
        invariant
            i <= lines@.len(),
            deep == lines.deep_view(),
            m as nat == max_ts_width(deep.take(i as int)),
        decreases lines@.len() - i,
    {
        proof {
            assert(deep[i as int] == (lines@[i as int].0@, lines@[i as int].1@));
            assert(deep.take(i + 1).drop_last() =~= deep.take(i as int));
            assert(deep.take(i + 1).last() == deep[i as int]);
        }
        let g = grapheme_count(lines[i].0.as_str());
        if g > m {
            m = g;
        }
        i = i + 1;
    }
    proof {
        assert(deep.take(lines@.len() as int) =~= deep);
    }
    m
}

/// Joins wrapped message rows into one cell: the first row as it is, each
/// later row on its own line behind the column indent.
pub fn format_row_parts(message_rows: Vec<String>, timestamp_width: usize) -> (r: String)
    ensures
        r@ == parts_spec(message_rows.deep_view(), col_pad(timestamp_width as nat)),
{
    let ghost deep = message_rows.deep_view();
    if message_rows.len() == 0 {
        return String::new();
    }
    let mut pad = spaces(timestamp_width);
    pad.append("  ");
    proof {
        reveal_strlit("  ");
        assert(pad@ =~= col_pad(timestamp_width as nat));
    }
    let mut r = message_rows[0].clone();
    let mut i: usize = 1;
    proof {
        assert(deep[0] == message_rows@[0]@);
        assert(deep.subrange(1, 1).len() == 0);
        assert(r@ =~= deep[0] + tail_parts(deep.subrange(1, 1), pad@));
    }
    while i < message_rows.len()
        invariant
            1 <= i <= message_rows@.len(),
            deep == message_rows.deep_view(),
            pad@ == col_pad(timestamp_width as nat),
            r@ == deep[0] + tail_parts(deep.subrange(1, i as int), pad@),
        decreases message_rows@.len() - i,
    {
        let ghost pre = r@;
        proof {
            assert(deep[i as int] == message_rows@[i as int]@);
        }
        r.append("\n");
        r.append(pad.as_str());
        r.append(message_rows[i].as_str());
        proof {
            reveal_strlit("\n");
            lemma_tail_parts_push(deep.subrange(1, i as int), deep[i as int], pad@);
            assert(deep.subrange(1, i as int).push(deep[i as int]) =~= deep.subrange(1, i + 1));
            assert(r@ =~= deep[0] + tail_parts(deep.subrange(1, i + 1), pad@));
        }
        i = i + 1;
    }
    proof {
        assert(deep.subrange(1, message_rows@.len() as int) =~= deep.drop_first());
        assert(r@ =~= parts_spec(deep, pad@));
    }
    r
}

/// Lays out one row: the right-aligned timestamp cell and the wrapped
/// message cell, kept apart so a front end may still style either column.
pub fn format_row(timestamp: String, message: String, timestamp_width: usize) -> (r: (
    String,
    String,
))
    ensures
        r.0@ == ts_cell(timestamp@, timestamp_width as nat),
        r.1@ == msg_cell(message@, timestamp_width as nat),
{
    let g = grapheme_count(timestamp.as_str());
    let ts = if g <= timestamp_width {
        let mut p = spaces(timestamp_width - g);
        p.append(timestamp.as_str());
        proof {
            assert(p@ =~= ts_cell(timestamp@, timestamp_width as nat));
        }
        p
    } else {
        timestamp
    };
    let rows = wrap_text(message.as_str(), WRAP_WIDTH);
    let ghost rowsv = rows.deep_view();
    let msg = if rows.len() == 1 {
        let first = rows[0].clone();
        proof {
            assert(first@ == rowsv[0]);
        }
        first
    } else {
        format_row_parts(rows, timestamp_width)
    };
    (ts, msg)
}

/// Lays out the rows as aligned table lines: in each, the timestamp
/// right-aligned to the widest one, two spaces, then the wrapped message.
pub fn make_table(rows: &Vec<(String, String)>) -> (r: Vec<String>)
    ensures
        r@.len() == rows@.len(),
        forall|i: int|
            0 <= i < rows@.len() ==> #[trigger] r.deep_view()[i] == table_line(
                rows.deep_view()[i].0,
                rows.deep_view()[i].1,
                max_ts_width(rows.deep_view()),
            ),
{
    let ghost deep = rows.deep_view();
    let width = max_timestamp_width(rows);
    let mut out: Vec<String> = Vec::new();
    let mut i: usize = 0;
    while i < rows.len()
        invariant
            i <= rows@.len(),
            deep == rows.deep_view(),
            width as nat == max_ts_width(deep),
            out@.len() == i,
            forall|j: int|
                0 <= j < i ==> #[trigger] out.deep_view()[j] == table_line(
                    deep[j].0,
                    deep[j].1,
                    max_ts_width(deep),
                ),
        decreases rows@.len() - i,
    {
        proof {
            assert(deep[i as int] == (rows@[i as int].0@, rows@[i as int].1@));
        }
        let ts = rows[i].0.clone();
        let msg = rows[i].1.clone();
        let (ts_part, msg_part) = format_row(ts, msg, width);
        let mut line = ts_part;
        line.append("  ");
        line.append(msg_part.as_str());
        proof {
            reveal_strlit("  ");
            assert(line@ =~= table_line(deep[i as int].0, deep[i as int].1, max_ts_width(deep)));
        }
        let ghost linev = line@;
        let ghost pre_out = out.deep_view();
        out.push(line);
        proof {
            assert(out.deep_view() =~= pre_out.push(linev));
        }
        i = i + 1;
    }
    out
}

} // verus!
