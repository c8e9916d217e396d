//! Character classes and small text algorithms shared by the record codec
//! and the token pipeline: whitespace handling, decimal numerals, trimming
//! and whitespace splitting.

use vstd::prelude::*;

verus! {

/// The white-space characters: the Unicode `White_Space` set.
pub open spec fn is_space(c: char) -> bool {
    let u = c as u32;
    (9 <= u && u <= 13) || u == 32 || u == 133 || u == 160 || u == 5760 || (8192 <= u && u
        <= 8202) || u == 8232 || u == 8233 || u == 8239 || u == 8287 || u == 12288
}

pub fn is_space_char(c: char) -> (r: bool)
    ensures
        r == is_space(c),
{
    let u = c as u32;
    (9 <= u && u <= 13) || u == 32 || u == 133 || u == 160 || u == 5760 || (8192 <= u && u
        <= 8202) || u == 8232 || u == 8233 || u == 8239 || u == 8287 || u == 12288
}

/// Whether every character of `s` is white space; such a line is blank.
pub open spec fn all_space(s: Seq<char>) -> bool {
    forall|i: int| 0 <= i < s.len() ==> is_space(#[trigger] s[i])
}

// ---------------------------------------------------------------------------
// Decimal numerals
// ---------------------------------------------------------------------------

pub open spec fn is_digit(c: char) -> bool {
    48 <= c as u32 && c as u32 <= 57
}

pub open spec fn digit_val(c: char) -> int {
    c as u32 - 48
}

pub open spec fn digit_char(d: int) -> char {
    if d == 0 {
        '0'
    } else if d == 1 {
        '1'
    } else if d == 2 {
        '2'
    } else if d == 3 {
        '3'
    } else if d == 4 {
        '4'
    } else if d == 5 {
        '5'
    } else if d == 6 {
        '6'
    } else if d == 7 {
        '7'
    } else if d == 8 {
        '8'
    } else {
        '9'
    }
}

/// The decimal numeral of a non-negative integer, without sign or padding.
pub open spec fn dec_str(n: int) -> Seq<char>
    recommends
        n >= 0,
    decreases n,
{
    if n < 10 {
        seq![digit_char(n)]
    } else {
        dec_str(n / 10).push(digit_char(n % 10))
    }
}

fn digit_str(d: u64) -> (r: &'static str)
    requires
        d < 10,
    ensures
        r@ == seq![digit_char(d as int)],
{
    let r: &'static str = if d == 0 {
        "0"
    } else if d == 1 {
        "1"
    } else if d == 2 {
        "2"
    } else if d == 3 {
        "3"
    } else if d == 4 {
        "4"
    } else if d == 5 {
        "5"
    } else if d == 6 {
        "6"
    } else if d == 7 {
        "7"
    } else if d == 8 {
        "8"
    } else {
        "9"
    };
    proof {
        reveal_strlit("0");
        reveal_strlit("1");
        reveal_strlit("2");
        reveal_strlit("3");
        reveal_strlit("4");
        reveal_strlit("5");
        reveal_strlit("6");
        reveal_strlit("7");
        reveal_strlit("8");
        reveal_strlit("9");
        assert(r@ =~= seq![digit_char(d as int)]);
    }
    r
}

fn push_dec(n: u64, out: &mut String)
    ensures
        final(out)@ == old(out)@ + dec_str(n as int),
    decreases n,
{
    if n >= 10 {
        push_dec(n / 10, out);
        out.append(digit_str(n % 10));
        proof {
            assert(out@ =~= old(out)@ + dec_str(n as int));
        }
    } else {
        out.append(digit_str(n));
        proof {
            assert(out@ =~= old(out)@ + dec_str(n as int));
        }
    }
}

/// Renders `n` as its decimal numeral.
pub fn u64_to_dec(n: u64) -> (r: String)
    ensures
        r@ == dec_str(n as int),
{
    let mut r = String::new();
    push_dec(n, &mut r);
    proof {
        assert(r@ =~= dec_str(n as int));
    }
    r
}

/// Folds decimal digits into a value, starting from `acc`; `None` when a
/// non-digit appears or the value would not fit in a `u64`.
pub open spec fn parse_u64_digits(s: Seq<char>, acc: u64) -> Option<u64>
    decreases s.len(),
{
    if s.len() == 0 {
        Some(acc)
    } else if !is_digit(s[0]) {
        None
    } else if acc as int * 10 + digit_val(s[0]) > u64::MAX as int {
        None
    } else {
        parse_u64_digits(s.drop_first(), (acc as int * 10 + digit_val(s[0])) as u64)
    }
}

/// What `str::parse::<u64>` accepts: an optional leading `+`, then at least
/// one digit, with the value fitting in a `u64`.
pub open spec fn parse_number(s: Seq<char>) -> Option<u64> {
    let t = if s.len() > 0 && s[0] == '+' {
        s.drop_first()
    } else {
        s
    };
    if t.len() == 0 {
        None
    } else {
        parse_u64_digits(t, 0)
    }
}

/// Parses a decimal numeral, optionally signed with `+`.
pub fn parse_number_str(s: &str) -> (r: Option<u64>)
    ensures
        r == parse_number(s@),
{
    let len = s.unicode_len();
    let plus = len > 0 && s.get_char(0) == '+';
    let start: usize = if plus {
        1
    } else {
        0
    };
    let ghost t = if plus {
        s@.drop_first()
    } else {
        s@
    };
    proof {
        assert(t =~= s@.skip(start as int));
    }
    if len == start {
        return None;
    }
    let mut acc: u64 = 0;
    let mut i: usize = start;
    proof {
        assert(t.skip(0) =~= t);
    }
    while i < len
        invariant
            start <= i <= len,
            len == s@.len(),
            t == s@.skip(start as int),
            t.len() == len - start,
            t.len() > 0,
            parse_number(s@) == parse_u64_digits(t, 0),
            parse_u64_digits(t, 0) == parse_u64_digits(t.skip(i - start), acc),
        decreases len - i,
    {
        let c = s.get_char(i);
        proof {
            assert(t.skip(i - start) =~= s@.skip(i as int));
            assert(t.skip(i - start)[0] == s@[i as int]);
        }
        let u = c as u32;
        if !(48 <= u && u <= 57) {
            return None;
        }
        let d: u64 = (u - 48) as u64;
        let stepped = match acc.checked_mul(10) {
            Some(m) => m.checked_add(d),
            None => None,
        };
        match stepped {
            Some(v) => {
                proof {
                    assert(t.skip(i - start).drop_first() =~= t.skip(i + 1 - start));
                }
                acc = v;
            },
            None => {
                return None;
            },
        }
        i = i + 1;
    }
    proof {
        assert(t.skip(len - start).len() == 0);
    }
    Some(acc)
}

// ---------------------------------------------------------------------------
// Trimming
// ---------------------------------------------------------------------------

/// `s` without its leading white space.
pub open spec fn trim_left_space(s: Seq<char>) -> Seq<char>
    decreases s.len(),
{
    if s.len() > 0 && is_space(s[0]) {
        trim_left_space(s.drop_first())
    } else {
        s
    }
}

/// `s` without its trailing white space.
pub open spec fn trim_right_space(s: Seq<char>) -> Seq<char>
    decreases s.len(),
{
    if s.len() > 0 && is_space(s.last()) {
        trim_right_space(s.drop_last())
    } else {
        s
    }
}

/// `s` without leading and trailing white space, as `str::trim` yields it.
pub open spec fn trim_ws(s: Seq<char>) -> Seq<char> {
    trim_right_space(trim_left_space(s))
}

proof fn lemma_trim_left_space_skip(s: Seq<char>, i: int)
    requires
        0 <= i <= s.len(),
        forall|j: int| 0 <= j < i ==> is_space(#[trigger] s[j]),
        i < s.len() ==> !is_space(s[i]),
    ensures
        trim_left_space(s) == s.skip(i),
    decreases i,
{
    if i == 0 {
        assert(s.skip(0) =~= s);
    } else {
        lemma_trim_left_space_skip(s.drop_first(), i - 1);
        assert(s.drop_first().skip(i - 1) =~= s.skip(i));
    }
}

proof fn lemma_trim_right_space_take(s: Seq<char>, i: int)
    requires
        -1 <= i < s.len(),
        forall|j: int| i < j < s.len() ==> is_space(#[trigger] s[j]),
        i >= 0 ==> !is_space(s[i]),
    ensures
        trim_right_space(s) == s.take(i + 1),
    decreases s.len() - i,
{
    if i == s.len() - 1 {
        assert(s.take(s.len() as int) =~= s);
    } else {
        lemma_trim_right_space_take(s.drop_last(), i);
        assert(s.drop_last().take(i + 1) =~= s.take(i + 1));
    }
}

/// `str::trim`: strips white space from both ends.
pub fn trim_str<'a>(s: &'a str) -> (r: &'a str)
    ensures
        r@ == trim_ws(s@),
{
    let len = s.unicode_len();
    let mut a: usize = 0;
    while a < len && is_space_char(s.get_char(a))
        invariant
            a <= len,
            len == s@.len(),
            forall|j: int| 0 <= j < a ==> is_space(#[trigger] s@[j]),
        decreases len - a,
    {
        a = a + 1;
    }
    if a == len {
        proof {
            lemma_trim_left_space_skip(s@, len as int);
            assert(s@.skip(len as int).len() == 0);
        }
        return s.substring_char(len, len);
    }
    let mut b: usize = len - 1;
    while b > a && is_space_char(s.get_char(b))
        invariant
            a <= b < len,
            len == s@.len(),
            !is_space(s@[a as int]),
            forall|j: int| b < j < len ==> is_space(#[trigger] s@[j]),
        decreases b,
    {
        b = b - 1;
    }
    proof {
        lemma_trim_left_space_skip(s@, a as int);
        lemma_trim_right_space_take(s@.skip(a as int), b - a);
        assert(s@.skip(a as int).take(b - a + 1) =~= s@.subrange(a as int, b + 1));
    }
    s.substring_char(a, b + 1)
}

// ---------------------------------------------------------------------------
// Alphanumeric characters and lowercasing (outside results, named)
// ---------------------------------------------------------------------------

pub uninterp spec fn is_alnum(c: char) -> bool;

/// Relies on `char::is_alphanumeric`: a property of the character alone.
#[verifier::external_body]
pub fn char_is_alnum(c: char) -> (r: bool)
    ensures
        r == is_alnum(c),
{
    c.is_alphanumeric()
}

pub uninterp spec fn lower_of(s: Seq<char>) -> Seq<char>;

/// Relies on `str::to_lowercase`: the result depends on the characters alone,
/// and an empty string stays empty.
#[verifier::external_body]
pub fn lowercase(s: &str) -> (r: String)
    ensures
        r@ == lower_of(s@),
        s@.len() == 0 ==> r@.len() == 0,
{
    s.to_lowercase()
}

/// `s` without the leading characters that are not alphanumeric.
pub open spec fn trim_left_non_alnum(s: Seq<char>) -> Seq<char>
    decreases s.len(),
{
    if s.len() > 0 && !is_alnum(s[0]) {
        trim_left_non_alnum(s.drop_first())
    } else {
        s
    }
}

/// `s` without the trailing characters that are not alphanumeric.
pub open spec fn trim_right_non_alnum(s: Seq<char>) -> Seq<char>
    decreases s.len(),
{
    if s.len() > 0 && !is_alnum(s.last()) {
        trim_right_non_alnum(s.drop_last())
    } else {
        s
    }
}

/// What `str::trim_matches` leaves when it strips non-alphanumeric characters
/// from both ends.
pub open spec fn trim_non_alnum(s: Seq<char>) -> Seq<char> {
    trim_right_non_alnum(trim_left_non_alnum(s))
}

proof fn lemma_trim_left_non_alnum_skip(s: Seq<char>, i: int)
    requires
        0 <= i <= s.len(),
        forall|j: int| 0 <= j < i ==> !is_alnum(#[trigger] s[j]),
        i < s.len() ==> is_alnum(s[i]),
    ensures
        trim_left_non_alnum(s) == s.skip(i),
    decreases i,
{
    if i == 0 {
        assert(s.skip(0) =~= s);
    } else {
        lemma_trim_left_non_alnum_skip(s.drop_first(), i - 1);
        assert(s.drop_first().skip(i - 1) =~= s.skip(i));
    }
}

proof fn lemma_trim_right_non_alnum_take(s: Seq<char>, i: int)
    requires
        -1 <= i < s.len(),
        forall|j: int| i < j < s.len() ==> !is_alnum(#[trigger] s[j]),
        i >= 0 ==> is_alnum(s[i]),
    ensures
        trim_right_non_alnum(s) == s.take(i + 1),
    decreases s.len() - i,
{
    if i == s.len() - 1 {
        assert(s.take(s.len() as int) =~= s);
    } else {
        lemma_trim_right_non_alnum_take(s.drop_last(), i);
        assert(s.drop_last().take(i + 1) =~= s.take(i + 1));
    }
}

/// Strips non-alphanumeric characters from both ends, as
/// `str::trim_matches` does with that predicate.
pub fn trim_non_alnum_str<'a>(s: &'a str) -> (r: &'a str)
    ensures
        r@ == trim_non_alnum(s@),
{
    let len = s.unicode_len();
    let mut a: usize = 0;
    while a < len && !char_is_alnum(s.get_char(a))
        invariant
            a <= len,
            len == s@.len(),
            forall|j: int| 0 <= j < a ==> !is_alnum(#[trigger] s@[j]),
        decreases len - a,
    {
        a = a + 1;
    }
    if a == len {
        proof {
            lemma_trim_left_non_alnum_skip(s@, len as int);
            assert(s@.skip(len as int).len() == 0);
        }
        return s.substring_char(len, len);
    }
    let mut b: usize = len - 1;
    while b > a && !char_is_alnum(s.get_char(b))
        invariant
            a <= b < len,
            len == s@.len(),
            is_alnum(s@[a as int]),
            forall|j: int| b < j < len ==> !is_alnum(#[trigger] s@[j]),
        decreases b,
    {
        b = b - 1;
    }
    proof {
        lemma_trim_left_non_alnum_skip(s@, a as int);
        lemma_trim_right_non_alnum_take(s@.skip(a as int), b - a);
        assert(s@.skip(a as int).take(b - a + 1) =~= s@.subrange(a as int, b + 1));
    }
    s.substring_char(a, b + 1)
}

// ---------------------------------------------------------------------------
// Splitting on white space
// ---------------------------------------------------------------------------

/// The maximal white-space-free words of `s` from position `i` on, with
/// `cur` the word in progress.
pub open spec fn tokens_acc(s: Seq<char>, i: int, cur: Seq<char>) -> Seq<Seq<char>>
    decreases s.len() - i,
{
    if i < 0 || i >= s.len() {
        if cur.len() > 0 {
            seq![cur]
        } else {
            seq![]
        }
    } else if is_space(s[i]) {
        (if cur.len() > 0 {
            seq![cur]
        } else {
            seq![]
        }) + tokens_acc(s, i + 1, seq![])
    } else {
        tokens_acc(s, i + 1, cur.push(s[i]))
    }
}

/// What `str::split_whitespace` yields: the maximal words of `s` that hold
/// no white space, in order.
pub open spec fn tokens_of(s: Seq<char>) -> Seq<Seq<char>> {
    tokens_acc(s, 0, seq![])
}

/// Splits on white space, as `str::split_whitespace` does.
pub fn split_ws(s: &str) -> (r: Vec<String>)
    ensures
        r.deep_view() == tokens_of(s@),
{
    let len = s.unicode_len();
    let mut out: Vec<String> = Vec::new();
    let mut i: usize = 0;
    let mut start: usize = 0;
    let mut in_tok = false;
    while i < len
        invariant
            i <= len,
            len == s@.len(),
            in_tok ==> start < i,
            out.deep_view() + tokens_acc(
                s@,
                i as int,
                if in_tok {
                    s@.subrange(start as int, i as int)
                } else {
                    seq![]
                },
            ) == tokens_of(s@),
        decreases len - i,
    {
        let ghost cur: Seq<char> = if in_tok {
            s@.subrange(start as int, i as int)
        } else {
            seq![]
        };
        let ghost pre = out.deep_view();
        let c = s.get_char(i);
        if is_space_char(c) {
            if in_tok {
                let tok = s.substring_char(start, i).to_owned();
                out.push(tok);
                in_tok = false;
                proof {
                    assert(cur.len() > 0);
                    assert(out.deep_view() =~= pre.push(cur));
                    assert(pre.push(cur) + tokens_acc(s@, i + 1, seq![]) =~= pre + (seq![cur]
                        + tokens_acc(s@, i + 1, seq![])));
                }
            } else {
                proof {
                    assert(seq![] + tokens_acc(s@, i + 1, seq![]) =~= tokens_acc(
                        s@,
                        i + 1,
                        seq![],
                    ));
                }
            }
        } else {
            if !in_tok {
                start = i;
                in_tok = true;
            }
            proof {
                assert(cur.push(s@[i as int]) =~= s@.subrange(start as int, i + 1));
            }
        }
        i = i + 1;
    }
    let ghost cur: Seq<char> = if in_tok {
        s@.subrange(start as int, len as int)
    } else {
        seq![]
    };
    let ghost pre = out.deep_view();
    if in_tok {
        let tok = s.substring_char(start, len).to_owned();
        out.push(tok);
        proof {
            assert(out.deep_view() =~= pre.push(cur));
            assert(pre.push(cur) =~= pre + seq![cur]);
        }
    } else {
        proof {
            assert(pre + tokens_acc(s@, len as int, cur) =~= pre);
        }
    }
    out
}

// ---------------------------------------------------------------------------
// Padding
// ---------------------------------------------------------------------------

/// A run of `n` spaces.
pub open spec fn pad_chars(n: nat) -> Seq<char> {
    Seq::new(n, |i: int| ' ')
}

/// A run of `n` spaces, as `str::repeat` on `" "` yields it.
pub fn spaces(n: usize) -> (r: String)
    ensures
        r@ == pad_chars(n as nat),
{
    let mut r = String::new();
    let mut k: usize = 0;
    proof {
        assert(r@ =~= pad_chars(0));
    }
    while k < n
        invariant
            k <= n,
            r@ == pad_chars(k as nat),
        decreases n - k,
    {
        r.append(" ");
        proof {
            reveal_strlit(" ");
            assert(r@ =~= pad_chars((k + 1) as nat));
        }
        k = k + 1;
    }
    r
}

} // verus!
