//! The record type and its line codec: a record is stored as one line,
//! `<milliseconds-since-epoch>: <message>`.

use vstd::prelude::*;

use crate::text::{
    dec_str, digit_char, digit_val, is_digit, is_space, parse_number, parse_number_str,
    parse_u64_digits, trim_str, trim_ws, u64_to_dec,
};

verus! {

/// A stored note: a timestamp with millisecond resolution and a message.
pub struct Record {
    pub timestamp_ms: u64,
    pub message: String,
}

impl View for Record {
    type V = (u64, Seq<char>);

    open spec fn view(&self) -> (u64, Seq<char>) {
        (self.timestamp_ms, self.message@)
    }
}

impl DeepView for Record {
    type V = (u64, Seq<char>);

    open spec fn deep_view(&self) -> (u64, Seq<char>) {
        self.view()
    }
}

/// The line under which a record is stored.
pub open spec fn store_line(ms: u64, msg: Seq<char>) -> Seq<char> {
    dec_str(ms as int) + seq![':', ' '] + msg
}

/// The first position holding the two-character delimiter `": "`, from `i` on.
pub open spec fn first_delim_from(s: Seq<char>, i: int) -> Option<int>
    recommends
        0 <= i,
    decreases s.len() - i,
{
    if i < 0 || i + 1 >= s.len() {
        None
    } else if s[i] == ':' && s[i + 1] == ' ' {
        Some(i)
    } else {
        first_delim_from(s, i + 1)
    }
}

/// How a stored line is read back: split at the first `": "`; the trimmed
/// prefix must be an unsigned decimal number, and the trimmed remainder is
/// the message. Anything else is not a record.
pub open spec fn parse_line(s: Seq<char>) -> Option<(u64, Seq<char>)> {
    match first_delim_from(s, 0) {
        None => None,
        Some(i) => match parse_number(trim_ws(s.take(i))) {
            None => None,
            Some(ms) => Some((ms, trim_ws(s.skip(i + 2)))),
        },
    }
}

/// The position of the first `": "` in `line`, if any.
fn find_delim(line: &str) -> (r: Option<usize>)
    ensures
        match r {
            None => first_delim_from(line@, 0) is None,
            Some(d) => d + 1 < line@.len() && first_delim_from(line@, 0) == Some(d as int),
        },
{
    let len = line.unicode_len();
    if len < 2 {
        return None;
    }
    let mut i: usize = 0;
    while i + 1 < len
        invariant
            len == line@.len(),
            len >= 2,
            i < len,
            first_delim_from(line@, 0) == first_delim_from(line@, i as int),
        decreases len - i,
    {
        if line.get_char(i) == ':' && line.get_char(i + 1) == ' ' {
            proof {
                assert(first_delim_from(line@, i as int) == Some(i as int));
            }
            return Some(i);
        }
        i = i + 1;
    }
    proof {
        assert(first_delim_from(line@, i as int) is None);
    }
    None
}

impl Record {
    pub fn new(timestamp_ms: u64, message: String) -> (r: Self)
        ensures
            r.timestamp_ms == timestamp_ms,
            r.message == message,
    {
        Record { timestamp_ms, message }
    }

    /// Renders the record as its store line.
    pub fn to_store(&self) -> (r: String)
        ensures
            r@ == store_line(self.timestamp_ms, self.message@),
    {
        let mut r = u64_to_dec(self.timestamp_ms);
        r.append(": ");
        r.append(self.message.as_str());
        proof {
            reveal_strlit(": ");
            assert(r@ =~= store_line(self.timestamp_ms, self.message@));
        }
        r
    }

    /// Reads a record back from a store line; `None` for a line that is
    /// blank or malformed.
    pub fn from_store(line: &str) -> (r: Option<Self>)
        ensures
            match r {
                Some(rec) => parse_line(line@) == Some(rec@),
                None => parse_line(line@) is None,
            },
    {
        let len = line.unicode_len();
        let delim = find_delim(line);
        match delim {
            None => None,
            Some(d) => {
                let prefix = line.substring_char(0, d);
                proof {
                    assert(prefix@ =~= line@.take(d as int));
                }
                match parse_number_str(trim_str(prefix)) {
                    None => None,
                    Some(ms) => {
                        let rest = line.substring_char(d + 2, len);
                        proof {
                            assert(rest@ =~= line@.skip(d + 2));
                        }
                        let message = trim_str(rest).to_owned();
                        Some(Record { timestamp_ms: ms, message })
                    },
                }
            },
        }
    }
}

// ---------------------------------------------------------------------------
// The codec round trip
// ---------------------------------------------------------------------------

proof fn lemma_dec_str_digits(n: int)
    requires
        n >= 0,
    ensures
        dec_str(n).len() >= 1,
        forall|i: int| 0 <= i < dec_str(n).len() ==> is_digit(#[trigger] dec_str(n)[i]),
    decreases n,
{
    if n >= 10 {
        lemma_dec_str_digits(n / 10);
    }
}

proof fn lemma_parse_push(s: Seq<char>, c: char, acc: u64)
    ensures
        parse_u64_digits(s.push(c), acc) == match parse_u64_digits(s, acc) {
            Some(v) => if is_digit(c) && v as int * 10 + digit_val(c) <= u64::MAX as int {
                Some((v as int * 10 + digit_val(c)) as u64)
            } else {
                None
            },
            None => None,
        },
    decreases s.len(),
{
    reveal_with_fuel(parse_u64_digits, 3);
    if s.len() == 0 {
        assert(s.push(c).len() == 1);
        assert(s.push(c)[0] == c);
        assert(parse_u64_digits(s, acc) == Some(acc));
        if is_digit(c) && acc as int * 10 + digit_val(c) <= u64::MAX as int {
            let acc2 = (acc as int * 10 + digit_val(c)) as u64;
            assert(s.push(c).drop_first() =~= Seq::<char>::empty());
            assert(parse_u64_digits(s.push(c), acc) == parse_u64_digits(
                Seq::<char>::empty(),
                acc2,
            ));
            assert(parse_u64_digits(Seq::<char>::empty(), acc2) == Some(acc2));
        } else {
            assert(parse_u64_digits(s.push(c), acc) is None);
        }
    } else {
        assert(s.push(c)[0] == s[0]);
        if is_digit(s[0]) && acc as int * 10 + digit_val(s[0]) <= u64::MAX as int {
            let acc2 = (acc as int * 10 + digit_val(s[0])) as u64;
            assert(s.push(c).drop_first() =~= s.drop_first().push(c));
            assert(parse_u64_digits(s.push(c), acc) == parse_u64_digits(
                s.drop_first().push(c),
                acc2,
            ));
            assert(parse_u64_digits(s, acc) == parse_u64_digits(s.drop_first(), acc2));
            lemma_parse_push(s.drop_first(), c, acc2);
        } else {
            assert(parse_u64_digits(s.push(c), acc) is None);
            assert(parse_u64_digits(s, acc) is None);
        }
    }
}

proof fn lemma_parse_dec(n: u64)
    ensures
        parse_u64_digits(dec_str(n as int), 0u64) == Some(n),
    decreases n,
{
    reveal_with_fuel(parse_u64_digits, 3);
    if n < 10 {
        let s = dec_str(n as int);
        assert(s == seq![digit_char(n as int)]);
        assert(s.len() == 1 && s[0] == digit_char(n as int));
        assert(is_digit(digit_char(n as int)));
        assert(digit_val(digit_char(n as int)) == n as int);
        assert(s.drop_first() =~= Seq::<char>::empty());
        assert(parse_u64_digits(s, 0u64) == parse_u64_digits(Seq::<char>::empty(), n));
    } else {
        lemma_parse_dec(n / 10);
        lemma_parse_push(dec_str(n as int / 10), digit_char(n as int % 10), 0u64);
        assert(is_digit(digit_char(n as int % 10)));
        assert(digit_val(digit_char(n as int % 10)) == n as int % 10);
        assert((n as int / 10) * 10 + n as int % 10 == n as int);
        assert(dec_str(n as int) == dec_str(n as int / 10).push(digit_char(n as int % 10)));
    }
}

proof fn lemma_delim_of_store_line(ms: u64, msg: Seq<char>, j: int)
    requires
        0 <= j <= dec_str(ms as int).len(),
    ensures
        first_delim_from(store_line(ms, msg), j) == Some(dec_str(ms as int).len() as int),
    decreases dec_str(ms as int).len() - j,
{
    let line = store_line(ms, msg);
    let d = dec_str(ms as int).len() as int;
    lemma_dec_str_digits(ms as int);
    assert(line[d] == ':');
    assert(line[d + 1] == ' ');
    if j < d {
        assert(is_digit(line[j]));
        assert(line[j] != ':');
        lemma_delim_of_store_line(ms, msg, j + 1);
    }
}

/// The codec round trip: a record whose message carries no surrounding
/// white space is read back exactly from the line it was stored under.
pub proof fn lemma_round_trip(ms: u64, msg: Seq<char>)
    requires
        trim_ws(msg) == msg,
    ensures
        parse_line(store_line(ms, msg)) == Some((ms, msg)),
{
    let line = store_line(ms, msg);
    let dec = dec_str(ms as int);
    let d = dec.len() as int;
    lemma_dec_str_digits(ms as int);
    lemma_delim_of_store_line(ms, msg, 0);
    assert(line.take(d) =~= dec);
    assert(line.skip(d + 2) =~= msg);
    // digits carry no white space, so the prefix is already trimmed
    assert(!is_space(dec[0]));
    assert(!is_space(dec[d - 1]));
    assert(trim_ws(dec) == dec);
    // and a digit is not a sign, so the whole numeral is the value
    assert(dec[0] != '+');
    lemma_parse_dec(ms);
}

} // verus!
