//! The append-only record store, seen as its sequence of lines: sequence
//! numbering, the append step, and the two read paths (full scan and tail
//! read). Opening, locking and reading the file itself happens outside the
//! library; these functions work on the lines and are what the critical
//! section computes.

use vstd::prelude::*;

use crate::records::{parse_line, store_line, Record};
use crate::text::{all_space, is_space, is_space_char};

verus! {

/// A line is blank when it holds only white space.
pub open spec fn is_blank(line: Seq<char>) -> bool {
    all_space(line)
}

/// The number of non-blank lines; the next record's sequence number.
pub open spec fn non_blank_count(lines: Seq<Seq<char>>) -> int
    decreases lines.len(),
{
    if lines.len() == 0 {
        0
    } else {
        non_blank_count(lines.drop_last()) + if is_blank(lines.last()) {
            0int
        } else {
            1int
        }
    }
}

/// The records held by the lines, in order; blank and malformed lines
/// contribute nothing.
pub open spec fn records_of(lines: Seq<Seq<char>>) -> Seq<(u64, Seq<char>)>
    decreases lines.len(),
{
    if lines.len() == 0 {
        seq![]
    } else {
        records_of(lines.drop_last()) + match parse_line(lines.last()) {
            Some(r) => seq![r],
            None => seq![],
        }
    }
}

pub fn is_blank_line(line: &str) -> (r: bool)
    ensures
        r == is_blank(line@),
{
    let len = line.unicode_len();
    let mut i: usize = 0;
    while i < len
        invariant
            i <= len,
            len == line@.len(),
            forall|j: int| 0 <= j < i ==> is_space(#[trigger] line@[j]),
        decreases len - i,
    {
        if !is_space_char(line.get_char(i)) {
            return false;
        }
        i = i + 1;
    }
    true
}

pub proof fn lemma_non_blank_count_bounds(lines: Seq<Seq<char>>)
    ensures
        0 <= non_blank_count(lines) <= lines.len(),
    decreases lines.len(),
{
    if lines.len() > 0 {
        lemma_non_blank_count_bounds(lines.drop_last());
    }
}

/// The sequence number the next appended record receives: the count of
/// non-blank lines now in the store. `None` when the store is full, that is
/// when the count no longer fits the 16-bit sequence-number space.
pub fn next_seq(lines: &Vec<String>) -> (r: Option<u16>)
    ensures
        r == (if non_blank_count(lines.deep_view()) <= u16::MAX as int {
            Some(non_blank_count(lines.deep_view()) as u16)
        } else {
            None::<u16>
        }),
{
    let ghost deep = lines.deep_view();
    let len = lines.len();
    let mut count: usize = 0;
    let mut i: usize = 0;
    proof {
        assert(deep.take(0) =~= Seq::<Seq<char>>::empty());
    }
    while i < len
        invariant
            i <= len,
            len == lines@.len(),
            deep == lines.deep_view(),
            count <= i,
            count == non_blank_count(deep.take(i as int)),
        decreases len - i,
    {
        proof {
            assert(deep[i as int] == lines@[i as int]@);
            assert(deep.take(i + 1).drop_last() =~= deep.take(i as int));
            assert(deep.take(i + 1).last() == deep[i as int]);
        }
        if !is_blank_line(lines[i].as_str()) {
            count = count + 1;
        }
        i = i + 1;
    }
    proof {
        assert(deep.take(len as int) =~= deep);
    }
    if count <= 65535 {
        Some(count as u16)
    } else {
        None
    }
}

/// One append, as performed inside the store's critical section: the new
/// record's line goes to the end, and the sequence number handed back is the
/// count of non-blank lines before it. `None`, with the store unchanged,
/// when the sequence-number space is exhausted.
pub fn append_record(lines: &mut Vec<String>, rec: &Record) -> (r: Option<u16>)
    ensures
        non_blank_count(old(lines).deep_view()) <= u16::MAX as int ==> r == Some(
            non_blank_count(old(lines).deep_view()) as u16,
        ) && final(lines).deep_view() == old(lines).deep_view().push(
            store_line(rec.timestamp_ms, rec.message@),
        ),
        non_blank_count(old(lines).deep_view()) > u16::MAX as int ==> r is None && *final(lines)
            == *old(lines),
{
    let n = next_seq(lines);
    match n {
        None => None,
        Some(k) => {
            let line = rec.to_store();
            lines.push(line);
            proof {
                assert(lines.deep_view() =~= old(lines).deep_view().push(
                    store_line(rec.timestamp_ms, rec.message@),
                ));
            }
            Some(k)
        },
    }
}

/// Reads every record out of the store's lines, oldest first.
pub fn load_all(lines: &Vec<String>) -> (r: Vec<Record>)
    ensures
        r.deep_view() == records_of(lines.deep_view()),
{
    let ghost deep = lines.deep_view();
    let len = lines.len();
    let mut out: Vec<Record> = Vec::new();
    let mut i: usize = 0;
    proof {
        assert(deep.take(0) =~= Seq::<Seq<char>>::empty());
        assert(out.deep_view() =~= records_of(deep.take(0)));
    }
    while i < len
        invariant
            i <= len,
            len == lines@.len(),
            deep == lines.deep_view(),
            out.deep_view() == records_of(deep.take(i as int)),
        decreases len - i,
    {
        let ghost pre = out.deep_view();
        proof {
            assert(deep[i as int] == lines@[i as int]@);
            assert(deep.take(i + 1).drop_last() =~= deep.take(i as int));
            assert(deep.take(i + 1).last() == deep[i as int]);
        }
        match Record::from_store(lines[i].as_str()) {
            Some(rec) => {
                out.push(rec);
                proof {
                    assert(out.deep_view() =~= pre + seq![rec@]);
                }
            },
            None => {
                proof {
                    assert(pre + Seq::<(u64, Seq<char>)>::empty() =~= pre);
                }
            },
        }
        i = i + 1;
    }
    proof {
        assert(deep.take(len as int) =~= deep);
    }
    out
}

/// The first (up to `k`) records found among `rev`, a sequence of lines
/// given newest first.
pub open spec fn first_records(rev: Seq<Seq<char>>, k: int) -> Seq<(u64, Seq<char>)>
    decreases rev.len(),
{
    if k <= 0 || rev.len() == 0 {
        seq![]
    } else {
        match parse_line(rev.first()) {
            Some(r) => seq![r] + first_records(rev.drop_first(), k - 1),
            None => first_records(rev.drop_first(), k),
        }
    }
}

/// What a tail read yields: up to `limit` of the most recent records (all of
/// them when `limit` is absent), put back in chronological order. `rev` is
/// the store's lines read from the end backward.
pub open spec fn recent_records(rev: Seq<Seq<char>>, limit: Option<usize>) -> Seq<(u64, Seq<char>)> {
    let k = match limit {
        Some(k) => k as int,
        None => rev.len() as int,
    };
    first_records(rev, k).reverse()
}

/// The tail read. `rev_lines` holds the store's lines read from the end
/// backward; the result is the last `limit` records, oldest first.
/// Malformed lines are dropped and do not count toward the limit.
pub fn load_recent(rev_lines: &Vec<String>, limit: Option<usize>) -> (r: Vec<Record>)
    ensures
        r.deep_view() == recent_records(rev_lines.deep_view(), limit),
{
    let ghost rev = rev_lines.deep_view();
    let len = rev_lines.len();
    let k: usize = match limit {
        Some(k) => k,
        None => len,
    };
    let mut picked: Vec<Record> = Vec::new();
    let mut i: usize = 0;
    proof {
        assert(rev.skip(0) =~= rev);
    }
    while i < len && picked.len() < k
        invariant
            i <= len,
            len == rev_lines@.len(),
            rev == rev_lines.deep_view(),
            picked.len() <= k,
            picked.deep_view() + first_records(rev.skip(i as int), k - picked.len())
                == first_records(rev, k as int),
        decreases len - i,
    {
        let ghost pre = picked.deep_view();
        proof {
            assert(rev[i as int] == rev_lines@[i as int]@);
            assert(rev.skip(i as int).first() == rev[i as int]);
            assert(rev.skip(i as int).drop_first() =~= rev.skip(i + 1));
        }
        match Record::from_store(rev_lines[i].as_str()) {
            Some(rec) => {
                picked.push(rec);
                proof {
                    assert(picked.deep_view() =~= pre + seq![rec@]);
                    assert(pre + (seq![rec@] + first_records(rev.skip(i + 1), k - pre.len() - 1))
                        =~= (pre + seq![rec@]) + first_records(rev.skip(i + 1), k - pre.len() - 1));
                }
            },
            None => {},
        }
        i = i + 1;
    }
    proof {
        if picked.len() < k {
            assert(rev.skip(len as int).len() == 0);
        }
        assert(picked.deep_view() + Seq::<(u64, Seq<char>)>::empty() =~= picked.deep_view());
        assert(picked.deep_view() == first_records(rev, k as int));
    }
    // put the collected tail back in chronological order
    let mut out: Vec<Record> = Vec::new();
    let mut j: usize = picked.len();
    while j > 0
        invariant
            j <= picked@.len(),
            out.deep_view() == picked.deep_view().skip(j as int).reverse(),
        decreases j,
    {
        let ghost pre = out.deep_view();
        j = j - 1;
        let rec = &picked[j];
        let copy = Record::new(rec.timestamp_ms, rec.message.clone());
        proof {
            assert(picked.deep_view()[j as int] == picked@[j as int]@);
            assert(copy@ == picked.deep_view()[j as int]);
        }
        out.push(copy);
        proof {
            assert(out.deep_view() =~= pre.push(picked.deep_view()[j as int]));
            assert(pre.push(picked.deep_view()[j as int]) =~= picked.deep_view().skip(
                j as int,
            ).reverse());
        }
    }
    proof {
        assert(picked.deep_view().skip(0) =~= picked.deep_view());
    }
    out
}

// ---------------------------------------------------------------------------
// Sequence numbers are dense and strictly increasing
// ---------------------------------------------------------------------------

/// The store's lines after the given records have been appended, in order,
/// onto an empty store.
pub open spec fn lines_after_appends(recs: Seq<(u64, Seq<char>)>) -> Seq<Seq<char>>
    decreases recs.len(),
{
    if recs.len() == 0 {
        seq![]
    } else {
        lines_after_appends(recs.drop_last()).push(
            store_line(recs.last().0, recs.last().1),
        )
    }
}

/// A record's store line is never blank: it starts `<digits>: `.
proof fn lemma_store_line_not_blank(ms: u64, msg: Seq<char>)
    ensures
        !is_blank(store_line(ms, msg)),
{
    let line = store_line(ms, msg);
    let d = crate::text::dec_str(ms as int).len() as int;
    assert(crate::text::dec_str(ms as int).len() >= 1) by {
        lemma_dec_len(ms as int);
    }
    assert(line[d] == ':');
    assert(!is_space(line[d]));
}

proof fn lemma_dec_len(n: int)
    requires
        n >= 0,
    ensures
        crate::text::dec_str(n).len() >= 1,
    decreases n,
{
    if n >= 10 {
        lemma_dec_len(n / 10);
    }
}

proof fn lemma_count_after_appends(recs: Seq<(u64, Seq<char>)>)
    ensures
        non_blank_count(lines_after_appends(recs)) == recs.len(),
    decreases recs.len(),
{
    if recs.len() > 0 {
        lemma_count_after_appends(recs.drop_last());
        lemma_store_line_not_blank(recs.last().0, recs.last().1);
        let lines = lines_after_appends(recs);
        assert(lines.drop_last() =~= lines_after_appends(recs.drop_last()));
    }
}

/// Sequence monotonicity: appends replayed in order onto an empty store are
/// assigned exactly the sequence numbers `0, 1, 2, ...`, dense and without
/// repetition — the `i`-th append sees `i` non-blank lines and so receives
/// number `i`.
pub proof fn lemma_sequence_monotonicity(recs: Seq<(u64, Seq<char>)>)
    ensures
        forall|i: int|
            0 <= i < recs.len() ==> non_blank_count(
                lines_after_appends(#[trigger] recs.take(i)),
            ) == i,
{
    assert forall|i: int| 0 <= i < recs.len() implies non_blank_count(
        lines_after_appends(#[trigger] recs.take(i)),
    ) == i by {
        lemma_count_after_appends(recs.take(i));
    }
}

/// The serialized shadow of mutual exclusion: once one append has written
/// its line, the next append reads a count one higher — two appends that
/// run one after the other can never read the same count.
pub proof fn lemma_appends_read_distinct_counts(lines: Seq<Seq<char>>, ms: u64, msg: Seq<char>)
    ensures
        non_blank_count(lines.push(store_line(ms, msg))) == non_blank_count(lines) + 1,
{
    lemma_store_line_not_blank(ms, msg);
    let pushed = lines.push(store_line(ms, msg));
    assert(pushed.drop_last() =~= lines);
}

// ---------------------------------------------------------------------------
// Tail correctness
// ---------------------------------------------------------------------------

proof fn lemma_first_records_of_reverse(lines: Seq<Seq<char>>, k: int)
    requires
        k >= 0,
    ensures
        ({
            let all = records_of(lines);
            let m = if all.len() <= k {
                0
            } else {
                all.len() - k
            };
            first_records(lines.reverse(), k) == all.skip(m).reverse()
        }),
    decreases lines.len(),
{
    let all = records_of(lines);
    let m = if all.len() <= k {
        0
    } else {
        all.len() - k
    };
    if lines.len() == 0 {
        assert(lines.reverse() =~= Seq::<Seq<char>>::empty());
        assert(all.skip(m).reverse() =~= Seq::<(u64, Seq<char>)>::empty());
    } else {
        let init = lines.drop_last();
        let last = lines.last();
        let rev = lines.reverse();
        assert(rev.first() == last);
        assert(rev.drop_first() =~= init.reverse());
        let all0 = records_of(init);
        match parse_line(last) {
            Some(r) => {
                assert(all =~= all0 + seq![r]);
                if k == 0 {
                    assert(all.skip(all.len() as int).reverse() =~= Seq::<(u64, Seq<char>)>::empty());
                } else {
                    lemma_first_records_of_reverse(init, k - 1);
                    let m0 = if all0.len() <= k - 1 {
                        0
                    } else {
                        all0.len() - (k - 1)
                    };
                    assert(m == m0);
                    assert(all.skip(m) =~= all0.skip(m0) + seq![r]);
                    assert((all0.skip(m0) + seq![r]).reverse() =~= seq![r] + all0.skip(
                        m0,
                    ).reverse());
                }
            },
            None => {
                assert(all =~= all0);
                lemma_first_records_of_reverse(init, k);
            },
        }
    }
}

/// Tail correctness: reading the last `k` records backward from the end and
/// restoring their order yields exactly the last `k` entries of the full
/// scan, oldest first.
pub proof fn lemma_tail_correctness(lines: Seq<Seq<char>>, k: usize)
    ensures
        ({
            let all = records_of(lines);
            let m = if all.len() <= k {
                0int
            } else {
                all.len() - k
            };
            recent_records(lines.reverse(), Some(k)) == all.skip(m)
        }),
{
    let all = records_of(lines);
    let m = if all.len() <= k {
        0int
    } else {
        all.len() - k
    };
    lemma_first_records_of_reverse(lines, k as int);
    assert(all.skip(m).reverse().reverse() =~= all.skip(m));
}

} // verus!
