//! The inverted search index: postings from stemmed terms to record
//! sequence numbers, with stopword filtering, incremental and full
//! construction, persistence, and ranked lookup.

use vstd::prelude::*;

use crate::errors::KprError;
use crate::records::{parse_line, Record};
use crate::store::{is_blank, is_blank_line, non_blank_count};
use crate::text::{lower_of, lowercase, tokens_of, trim_non_alnum, trim_non_alnum_str, split_ws};

verus! {

// ---------------------------------------------------------------------------
// The token pipeline
// ---------------------------------------------------------------------------

pub uninterp spec fn stem_of(w: Seq<char>) -> Seq<char>;

/// Relies on rust_stemmers: `Stemmer::create(Algorithm::English)` picks the
/// English snowball algorithm, a pure function, and `Stemmer::stem` applies
/// it; the result depends on the input characters alone.
#[verifier::external_body]
fn stem_english(word: &str) -> (r: String)
    ensures
        r@ == stem_of(word@),
{
    rust_stemmers::Stemmer::create(rust_stemmers::Algorithm::English).stem(word).to_string()
}

/// A cleaned word: surrounding non-alphanumeric characters stripped, then
/// lowercased.
pub open spec fn clean_spec(w: Seq<char>) -> Seq<char> {
    lower_of(trim_non_alnum(w))
}

/// The canonical indexing key of a token: its cleaned form, stemmed.
pub open spec fn clean_stem_spec(w: Seq<char>) -> Seq<char> {
    stem_of(clean_spec(w))
}

// ---------------------------------------------------------------------------
// Postings
// ---------------------------------------------------------------------------

/// Each indexed term appears at most once.
pub open spec fn wf_postings(ps: Seq<(Seq<char>, Seq<u16>)>) -> bool {
    forall|i: int, j: int|
        #![trigger ps[i].0, ps[j].0]
        0 <= i < j < ps.len() ==> ps[i].0 != ps[j].0
}

pub open spec fn has_term(ps: Seq<(Seq<char>, Seq<u16>)>, k: Seq<char>) -> bool {
    exists|i: int| 0 <= i < ps.len() && ps[i].0 == k
}

pub open spec fn term_index(ps: Seq<(Seq<char>, Seq<u16>)>, k: Seq<char>) -> int {
    choose|i: int| 0 <= i < ps.len() && ps[i].0 == k
}

/// The postings list of a term: its sequence numbers in insertion order,
/// empty for a term that was never indexed.
pub open spec fn postings_of(ps: Seq<(Seq<char>, Seq<u16>)>, k: Seq<char>) -> Seq<u16> {
    if has_term(ps, k) {
        ps[term_index(ps, k)].1
    } else {
        seq![]
    }
}

proof fn lemma_add_word_preserves_wf(ps: Seq<(Seq<char>, Seq<u16>)>, k: Seq<char>, n: u16)
    requires
        wf_postings(ps),
    ensures
        wf_postings(add_word_spec(ps, k, n)),
{
    let new = add_word_spec(ps, k, n);
    if has_term(ps, k) {
        let ti = term_index(ps, k);
        assert(0 <= ti < ps.len() && ps[ti].0 == k);
        assert forall|a: int, b: int| 0 <= a < b < new.len() implies new[a].0 != new[b].0 by {
            assert(ps[a].0 != ps[b].0);
        }
    } else {
        assert forall|a: int, b: int| 0 <= a < b < new.len() implies new[a].0 != new[b].0 by {
            if b < ps.len() {
                assert(ps[a].0 != ps[b].0);
            } else {
                assert(new[b].0 == k);
                assert(!(exists|i: int| 0 <= i < ps.len() && ps[i].0 == k));
                assert(ps[a].0 != k);
            }
        }
    }
}

/// In a well-formed map, a position holding key `k` is the term's one
/// index.
proof fn lemma_term_index_is(ps: Seq<(Seq<char>, Seq<u16>)>, k: Seq<char>, i: int)
    requires
        wf_postings(ps),
        0 <= i < ps.len(),
        ps[i].0 == k,
    ensures
        has_term(ps, k),
        term_index(ps, k) == i,
{
    assert(has_term(ps, k));
    let ti = term_index(ps, k);
    assert(0 <= ti < ps.len() && ps[ti].0 == k);
    if ti < i {
        assert(ps[ti].0 != ps[i].0);
    }
    if ti > i {
        assert(ps[i].0 != ps[ti].0);
    }
}

/// One word added under key `k` for record `n`: the key's list grows by
/// `n` at the end; a new key enters at the end of the map.
pub open spec fn add_word_spec(ps: Seq<(Seq<char>, Seq<u16>)>, k: Seq<char>, n: u16) -> Seq<
    (Seq<char>, Seq<u16>),
> {
    if has_term(ps, k) {
        ps.update(term_index(ps, k), (k, ps[term_index(ps, k)].1.push(n)))
    } else {
        ps.push((k, seq![n]))
    }
}

/// The words of one message folded into the postings, left to right,
/// stop words skipped.
pub open spec fn add_tokens_spec(
    ps: Seq<(Seq<char>, Seq<u16>)>,
    stops: Seq<Seq<char>>,
    toks: Seq<Seq<char>>,
    n: u16,
) -> Seq<(Seq<char>, Seq<u16>)>
    decreases toks.len(),
{
    if toks.len() == 0 {
        ps
    } else {
        let stepped = if is_stop_spec(stops, toks.first()) {
            ps
        } else {
            add_word_spec(ps, clean_stem_spec(toks.first()), n)
        };
        add_tokens_spec(stepped, stops, toks.drop_first(), n)
    }
}

/// One line added for record `n`: nothing for a line that is not a record,
/// else its message's words.
pub open spec fn add_line_spec(
    ps: Seq<(Seq<char>, Seq<u16>)>,
    stops: Seq<Seq<char>>,
    n: u16,
    line: Seq<char>,
) -> Seq<(Seq<char>, Seq<u16>)> {
    match parse_line(line) {
        None => ps,
        Some((ms, msg)) => add_tokens_spec(ps, stops, tokens_of(msg), n),
    }
}

/// The lines folded into postings in order, non-blank lines numbered
/// consecutively from `next`.
pub open spec fn build_acc(
    ps: Seq<(Seq<char>, Seq<u16>)>,
    stops: Seq<Seq<char>>,
    lines: Seq<Seq<char>>,
    next: int,
) -> Seq<(Seq<char>, Seq<u16>)>
    decreases lines.len(),
{
    if lines.len() == 0 {
        ps
    } else if is_blank(lines.first()) {
        build_acc(ps, stops, lines.drop_first(), next)
    } else {
        build_acc(add_line_spec(ps, stops, next as u16, lines.first()), stops, lines.drop_first(), next + 1)
    }
}

/// The postings of a full build over the store's lines.
pub open spec fn build_spec(lines: Seq<Seq<char>>, stops: Seq<Seq<char>>) -> Seq<
    (Seq<char>, Seq<u16>),
> {
    build_acc(seq![], stops, lines, 0)
}

/// The stopword lines, each cleaned, in file order.
pub open spec fn cleaned_stops(stop_lines: Seq<Seq<char>>) -> Seq<Seq<char>>
    decreases stop_lines.len(),
{
    if stop_lines.len() == 0 {
        seq![]
    } else {
        cleaned_stops(stop_lines.drop_last()).push(clean_spec(stop_lines.last()))
    }
}

/// Whether a word is a stop word: membership is tested on the cleaned
/// form, not the stemmed one.
pub open spec fn is_stop_spec(stops: Seq<Seq<char>>, w: Seq<char>) -> bool {
    stops.contains(clean_spec(w))
}

// ---------------------------------------------------------------------------
// The index
// ---------------------------------------------------------------------------

/// The inverted index: the postings map, in term insertion order, and the
/// stopword set, both explicit state. The stopwords are injected at
/// construction so that the same type serves any stopword file.
pub struct Index {
    postings: Vec<(String, Vec<u16>)>,
    stop_words: Vec<String>,
}

impl Index {
    /// The postings map, term by term, in insertion order.
    pub closed spec fn postings_view(self) -> Seq<(Seq<char>, Seq<u16>)> {
        self.postings.deep_view()
    }

    /// The stopword set (as a sequence in file order; only membership matters).
    pub closed spec fn stops_view(self) -> Seq<Seq<char>> {
        self.stop_words.deep_view()
    }

    pub open spec fn wf(self) -> bool {
        wf_postings(self.postings_view())
    }

    /// An empty index over the given stopword lines, which it cleans.
    pub fn new(stop_lines: &Vec<String>) -> (r: Index)
        ensures
            r.wf(),
            r.postings_view() == Seq::<(Seq<char>, Seq<u16>)>::empty(),
            r.stops_view() == cleaned_stops(stop_lines.deep_view()),
    {
        let ghost deep = stop_lines.deep_view();
        let mut stops: Vec<String> = Vec::new();
        let mut i: usize = 0;
        proof {
            assert(deep.take(0) =~= Seq::<Seq<char>>::empty());
            assert(stops.deep_view() =~= cleaned_stops(deep.take(0)));
        }
        while i < stop_lines.len()
            invariant
                i <= stop_lines@.len(),
                deep == stop_lines.deep_view(),
                stops.deep_view() == cleaned_stops(deep.take(i as int)),
            decreases stop_lines@.len() - i,
        {
            let ghost pre = stops.deep_view();
            proof {
                assert(deep[i as int] == stop_lines@[i as int]@);
                assert(deep.take(i + 1).drop_last() =~= deep.take(i as int));
                assert(deep.take(i + 1).last() == deep[i as int]);
            }
            let cleaned = Self::clean(stop_lines[i].as_str());
            stops.push(cleaned);
            proof {
                assert(stops.deep_view() =~= pre.push(clean_spec(deep[i as int])));
            }
            i = i + 1;
        }
        proof {
            assert(deep.take(stop_lines@.len() as int) =~= deep);
        }
        let r = Index { postings: Vec::new(), stop_words: stops };
        proof {
            assert(r.postings_view() =~= Seq::<(Seq<char>, Seq<u16>)>::empty());
        }
        r
    }

    /// How many distinct terms the index holds.
    pub fn len(&self) -> (r: usize)
        ensures
            r == self.postings_view().len(),
    {
        self.postings.len()
    }

    /// Cleans a word: strips surrounding non-alphanumeric characters and
    /// lowercases.
    pub fn clean(word: &str) -> (r: String)
        ensures
            r@ == clean_spec(word@),
    {
        lowercase(trim_non_alnum_str(word))
    }

    /// Reduces an English word to its root.
    pub fn stem(&self, word: &str) -> (r: String)
        ensures
            r@ == stem_of(word@),
    {
        stem_english(word)
    }

    /// The canonical indexing key of a token.
    pub fn clean_and_stem(&self, word: &str) -> (r: String)
        ensures
            r@ == clean_stem_spec(word@),
    {
        let cleaned = Self::clean(word);
        self.stem(cleaned.as_str())
    }

    /// Whether the cleaned form of `word` is in the stopword set.
    pub fn is_stop(&self, word: &str) -> (r: bool)
        ensures
            r == is_stop_spec(self.stops_view(), word@),
    {
        let cleaned = Self::clean(word);
        let ghost stops = self.stops_view();
        let mut i: usize = 0;
        while i < self.stop_words.len()
            invariant
                i <= self.stop_words@.len(),
                stops == self.stops_view(),
                cleaned@ == clean_spec(word@),
                forall|j: int| 0 <= j < i ==> stops[j] != cleaned@,
            decreases self.stop_words@.len() - i,
        {
            proof {
                assert(stops[i as int] == self.stop_words@[i as int]@);
            }
            if self.stop_words[i] == cleaned {
                proof {
                    assert(stops.contains(cleaned@));
                }
                return true;
            }
            i = i + 1;
        }
        proof {
            assert(!stops.contains(cleaned@));
        }
        false
    }

    /// The postings list recorded for a word, after cleaning and stemming;
    /// empty for a word that was never indexed.
    pub fn lookup_word(&self, word: &str) -> (r: Vec<u16>)
        requires
            self.wf(),
        ensures
            r@ == postings_of(self.postings_view(), clean_stem_spec(word@)),
    {
        let stem = self.clean_and_stem(word);
        let ghost ps = self.postings_view();
        let ghost k = clean_stem_spec(word@);
        let mut i: usize = 0;
        while i < self.postings.len()
            invariant
                i <= self.postings@.len(),
                ps == self.postings_view(),
                wf_postings(ps),
                stem@ == k,
                k == clean_stem_spec(word@),
                forall|j: int| 0 <= j < i ==> ps[j].0 != k,
            decreases self.postings@.len() - i,
        {
            proof {
                assert(ps[i as int] == (self.postings@[i as int].0@, self.postings@[i as int].1@));
            }
            if self.postings[i].0 == stem {
                proof {
                    assert(ps[i as int].0 == k);
                    lemma_term_index_is(ps, k, i as int);
                }
                let mut r: Vec<u16> = Vec::new();
                let nums = &self.postings[i].1;
                let mut j: usize = 0;
                while j < nums.len()
                    invariant
                        j <= nums@.len(),
                        r@ == nums@.take(j as int),
                    decreases nums@.len() - j,
                {
                    r.push(nums[j]);
                    proof {
                        assert(r@ =~= nums@.take(j + 1));
                    }
                    j = j + 1;
                }
                proof {
                    assert(nums@.take(nums@.len() as int) =~= nums@);
                    assert(r@ == ps[i as int].1);
                }
                return r;
            }
            i = i + 1;
        }
        proof {
            assert(!has_term(ps, k));
        }
        Vec::new()
    }

    /// Appends record `line_number` to the postings of `word`'s key,
    /// creating the key at the end of the map when it is new.
    pub fn add_word(&mut self, word: &str, line_number: u16)
        requires
            old(self).wf(),
        ensures
            final(self).wf(),
            final(self).postings_view() == add_word_spec(
                old(self).postings_view(),
                clean_stem_spec(word@),
                line_number,
            ),
            final(self).stops_view() == old(self).stops_view(),
    {
        let stem = self.clean_and_stem(word);
        let ghost ps = self.postings_view();
        let ghost k = clean_stem_spec(word@);
        let mut i: usize = 0;
        while i < self.postings.len()
            invariant
                i <= self.postings@.len(),
                ps == self.postings_view(),
                wf_postings(ps),
                *self == *old(self),
                stem@ == k,
                k == clean_stem_spec(word@),
                forall|j: int| 0 <= j < i ==> ps[j].0 != k,
            decreases self.postings@.len() - i,
        {
            proof {
                assert(ps[i as int] == (self.postings@[i as int].0@, self.postings@[i as int].1@));
            }
            if self.postings[i].0 == stem {
                proof {
                    assert(ps[i as int].0 == k);
                    lemma_term_index_is(ps, k, i as int);
                }
                let mut entry = self.postings.remove(i);
                entry.1.push(line_number);
                self.postings.insert(i, entry);
                proof {
                    assert(self.postings_view() =~~= add_word_spec(ps, k, line_number));
                    lemma_add_word_preserves_wf(ps, k, line_number);
                }
                return ;
            }
            i = i + 1;
        }
        proof {
            assert(!has_term(ps, k));
        }
        let mut nums: Vec<u16> = Vec::new();
        nums.push(line_number);
        self.postings.push((stem, nums));
        proof {
            assert(self.postings_view() =~~= ps.push((k, seq![line_number])));
            lemma_add_word_preserves_wf(ps, k, line_number);
        }
    }

    /// Indexes one store line as record `line_number`: a line that is not a
    /// record adds nothing; otherwise each word of the message that is not
    /// a stop word is added under its key.
    pub fn add_line(&mut self, line_number: u16, line: &str)
        requires
            old(self).wf(),
        ensures
            final(self).wf(),
            final(self).postings_view() == add_line_spec(
                old(self).postings_view(),
                old(self).stops_view(),
                line_number,
                line@,
            ),
            final(self).stops_view() == old(self).stops_view(),
    {
        let rec = match Record::from_store(line) {
            None => {
                return ;
            },
            Some(rec) => rec,
        };
        let toks = split_ws(rec.message.as_str());
        let ghost all = toks.deep_view();
        let ghost stops = self.stops_view();
        let ghost target = add_tokens_spec(self.postings_view(), stops, all, line_number);
        let mut i: usize = 0;
        proof {
            assert(all.skip(0) =~= all);
        }
        while i < toks.len()
            invariant
                i <= toks@.len(),
                all == toks.deep_view(),
                self.wf(),
                self.stops_view() == stops,
                add_tokens_spec(self.postings_view(), stops, all.skip(i as int), line_number)
                    == target,
            decreases toks@.len() - i,
        {
            proof {
                assert(all[i as int] == toks@[i as int]@);
                assert(all.skip(i as int).first() == all[i as int]);
                assert(all.skip(i as int).drop_first() =~= all.skip(i + 1));
            }
            let word = &toks[i];
            if !self.is_stop(word.as_str()) {
                self.add_word(word.as_str(), line_number);
            }
            i = i + 1;
        }
        proof {
            assert(all.skip(toks@.len() as int).len() == 0);
        }
    }

    /// A full rebuild: folds every line of the store into an empty index,
    /// numbering the non-blank lines consecutively from zero. Deterministic
    /// for a given store and stopword set.
    pub fn from_lines(lines: &Vec<String>, stop_lines: &Vec<String>) -> (r: Index)
        requires
            non_blank_count(lines.deep_view()) <= u16::MAX as int + 1,
        ensures
            r.wf(),
            r.postings_view() == build_spec(
                lines.deep_view(),
                cleaned_stops(stop_lines.deep_view()),
            ),
            r.stops_view() == cleaned_stops(stop_lines.deep_view()),
    {
        let ghost deep = lines.deep_view();
        let mut ix = Index::new(stop_lines);
        let ghost stops = ix.stops_view();
        let ghost target = build_spec(deep, stops);
        let mut next: usize = 0;
        let mut i: usize = 0;
        proof {
            assert(deep.skip(0) =~= deep);
            assert(deep.take(0) =~= Seq::<Seq<char>>::empty());
        }
        while i < lines.len()
            invariant
                i <= lines@.len(),
                deep == lines.deep_view(),
                ix.wf(),
                ix.stops_view() == stops,
                next == non_blank_count(deep.take(i as int)),
                non_blank_count(deep) <= u16::MAX as int + 1,
                build_acc(ix.postings_view(), stops, deep.skip(i as int), next as int) == target,
            decreases lines@.len() - i,
        {
            proof {
                assert(deep[i as int] == lines@[i as int]@);
                assert(deep.skip(i as int).first() == deep[i as int]);
                assert(deep.skip(i as int).drop_first() =~= deep.skip(i + 1));
                assert(deep.take(i + 1).drop_last() =~= deep.take(i as int));
                assert(deep.take(i + 1).last() == deep[i as int]);
            }
            let line = &lines[i];
            if !is_blank_line(line.as_str()) {
                proof {
                    lemma_count_take_le(deep, i + 1);
                }
                ix.add_line(next as u16, line.as_str());
                next = next + 1;
            }
            i = i + 1;
        }
        proof {
            assert(deep.skip(lines@.len() as int).len() == 0);
        }
        ix
    }
}

// ---------------------------------------------------------------------------
// Ranked search
// ---------------------------------------------------------------------------

/// Every hit a query produces: for each non-stop term in query order, the
/// postings of its key, concatenated. A sequence number may appear many
/// times; each occurrence is one vote for it.
pub open spec fn query_hits(
    ps: Seq<(Seq<char>, Seq<u16>)>,
    stops: Seq<Seq<char>>,
    q: Seq<Seq<char>>,
) -> Seq<u16>
    decreases q.len(),
{
    if q.len() == 0 {
        seq![]
    } else {
        (if is_stop_spec(stops, q.first()) {
            seq![]
        } else {
            postings_of(ps, clean_stem_spec(q.first()))
        }) + query_hits(ps, stops, q.drop_first())
    }
}

/// How often the hits voted for sequence number `s`.
pub open spec fn hit_count(occ: Seq<u16>, s: u16) -> nat {
    occ.to_multiset().count(s)
}

/// What a ranked search returns for the hits `occ`: each hit sequence
/// number exactly once, by descending hit count; equal counts are ordered
/// by ascending sequence number. This pins the result down completely.
pub open spec fn ranked_result(occ: Seq<u16>, ranked: Seq<u16>) -> bool {
    &&& ranked.no_duplicates()
    &&& (forall|s: u16| ranked.contains(s) <==> occ.contains(s))
    &&& (forall|i: int, j: int|
        #![trigger ranked[i], ranked[j]]
        0 <= i < j < ranked.len() ==> hit_count(occ, ranked[i]) > hit_count(occ, ranked[j]) || (
        hit_count(occ, ranked[i]) == hit_count(occ, ranked[j]) && ranked[i] < ranked[j]))
}

/// Two sequences that both satisfy `ranked_result` for the same hits are
/// equal: the contract determines the search result completely.
pub proof fn lemma_ranked_result_unique(occ: Seq<u16>, r1: Seq<u16>, r2: Seq<u16>)
    requires
        ranked_result(occ, r1),
        ranked_result(occ, r2),
    ensures
        r1 == r2,
{
    broadcast use vstd::seq_lib::group_to_multiset_ensures;
    broadcast use vstd::multiset::group_multiset_axioms;

    r1.lemma_multiset_has_no_duplicates();
    r2.lemma_multiset_has_no_duplicates();
    assert forall|x: u16| r1.to_multiset().count(x) == r2.to_multiset().count(x) by {
        if occ.contains(x) {
            assert(r1.contains(x));
            assert(r2.contains(x));
            assert(r1.to_multiset().count(x) == 1);
            assert(r2.to_multiset().count(x) == 1);
        } else {
            assert(!r1.contains(x));
            assert(!r2.contains(x));
            assert(r1.to_multiset().count(x) == 0);
            assert(r2.to_multiset().count(x) == 0);
        }
    }
    assert(r1.to_multiset() =~= r2.to_multiset());
    let leq = |a: u16, b: u16|
        hit_count(occ, a) > hit_count(occ, b) || (hit_count(occ, a) == hit_count(occ, b) && a
            <= b);
    assert forall|a: u16, b: u16| #[trigger] leq(a, b) && #[trigger] leq(b, a) implies a == b by {}
    assert forall|a: u16, b: u16, c: u16|
        #[trigger] leq(a, b) && #[trigger] leq(b, c) implies leq(a, c) by {}
    assert forall|a: u16, b: u16| #[trigger] leq(a, b) || #[trigger] leq(b, a) by {}
    assert(vstd::relations::total_ordering(leq));
    assert forall|i: int, j: int| 0 <= i < j < r1.len() implies #[trigger] leq(r1[i], r1[j]) by {}
    assert forall|i: int, j: int| 0 <= i < j < r2.len() implies #[trigger] leq(r2[i], r2[j]) by {}
    assert(vstd::relations::sorted_by(r1, leq));
    assert(vstd::relations::sorted_by(r2, leq));
    vstd::seq_lib::lemma_sorted_unique(r1, r2, leq);
}

/// The tally list built while counting votes: keys are unique.
spec fn distinct_keys(cs: Seq<(u16, usize)>) -> bool {
    forall|a: int, b: int|
        #![trigger cs[a].0, cs[b].0]
        0 <= a < b < cs.len() ==> cs[a].0 != cs[b].0
}

spec fn has_key(cs: Seq<(u16, usize)>, s: u16) -> bool {
    exists|a: int| 0 <= a < cs.len() && cs[a].0 == s
}

/// The display order of two tallies: more votes first, then the smaller
/// sequence number.
spec fn rank_leq(a: (u16, usize), b: (u16, usize)) -> bool {
    a.1 > b.1 || (a.1 == b.1 && a.0 <= b.0)
}

fn find_key_index(cs: &Vec<(u16, usize)>, s: u16) -> (r: Option<usize>)
    ensures
        match r {
            Some(j) => j < cs@.len() && cs@[j as int].0 == s,
            None => !has_key(cs@, s),
        },
{
    let mut j: usize = 0;
    while j < cs.len()
        invariant
            j <= cs@.len(),
            forall|b: int| 0 <= b < j ==> cs@[b].0 != s,
        decreases cs@.len() - j,
    {
        if cs[j].0 == s {
            return Some(j);
        }
        j = j + 1;
    }
    None
}

proof fn lemma_take_succ_contains(s: Seq<u16>, i: int, x: u16)
    requires
        0 <= i < s.len(),
        s.take(i).contains(x),
    ensures
        s.take(i + 1).contains(x),
{
    let idx = choose|idx: int| 0 <= idx < i && s.take(i)[idx] == x;
    assert(s.take(i + 1)[idx] == x);
}

/// Tallies the votes: one entry per distinct sequence number in `occ`, in
/// first-occurrence order, each with its number of occurrences.
fn count_hits(occ: &Vec<u16>) -> (r: Vec<(u16, usize)>)
    ensures
        distinct_keys(r@),
        forall|a: int|
            0 <= a < r@.len() ==> (#[trigger] r@[a]).1 == hit_count(occ@, r@[a].0)
                && occ@.contains(r@[a].0),
        forall|s: u16| occ@.contains(s) ==> has_key(r@, s),
{
    let ghost occv = occ@;
    let mut counts: Vec<(u16, usize)> = Vec::new();
    let mut i: usize = 0;
    proof {
        broadcast use vstd::seq_lib::group_to_multiset_ensures;
        broadcast use vstd::multiset::group_multiset_axioms;

        assert(occv.take(0) =~= Seq::<u16>::empty());
    }
    while i < occ.len()
        invariant
            i <= occ@.len(),
            occv == occ@,
            distinct_keys(counts@),
            forall|a: int|
                0 <= a < counts@.len() ==> (#[trigger] counts@[a]).1 == hit_count(
                    occv.take(i as int),
                    counts@[a].0,
                ) && counts@[a].1 <= i && occv.take(i as int).contains(counts@[a].0),
            forall|s: u16| occv.take(i as int).contains(s) ==> has_key(counts@, s),
        decreases occ@.len() - i,
    {
        let ghost pre = counts@;
        let ghost taken = occv.take(i as int);
        let s = occ[i];
        proof {
            broadcast use vstd::seq_lib::group_to_multiset_ensures;
            broadcast use vstd::multiset::group_multiset_axioms;

            assert(occv.take(i + 1) =~= taken.push(occv[i as int]));
            assert(occv.take(i + 1).to_multiset() == taken.to_multiset().insert(
                occv[i as int],
            ));
            assert(occv.take(i + 1)[i as int] == occv[i as int]);
            assert(occv.take(i + 1).contains(s));
        }
        match find_key_index(&counts, s) {
            Some(j) => {
                let mut e = counts.remove(j);
                e.1 = e.1 + 1;
                counts.insert(j, e);
                proof {
                    broadcast use vstd::seq_lib::group_to_multiset_ensures;
                    broadcast use vstd::multiset::group_multiset_axioms;

                    assert(counts@ =~= pre.update(j as int, (s, (pre[j as int].1 + 1) as usize)));
                    assert forall|a: int|
                        0 <= a < counts@.len() implies (#[trigger] counts@[a]).1 == hit_count(
                        occv.take(i + 1),
                        counts@[a].0,
                    ) && counts@[a].1 <= i + 1 && occv.take(i + 1).contains(counts@[a].0) by {
                        if a == j as int {
                            assert(counts@[a] == (s, (pre[j as int].1 + 1) as usize));
                        } else {
                            assert(pre[a].0 != pre[j as int].0);
                            lemma_take_succ_contains(occv, i as int, pre[a].0);
                        }
                    }
                    assert forall|s2: u16| occv.take(i + 1).contains(s2) implies has_key(
                        counts@,
                        s2,
                    ) by {
                        assert(occv.take(i + 1).len() == i + 1);
                        let idx = choose|idx: int|
                            0 <= idx < i + 1 && #[trigger] occv.take(i + 1)[idx] == s2;
                        if idx < i as int {
                            assert(taken[idx] == s2);
                            assert(taken.contains(s2));
                            assert(has_key(pre, s2));
                            let a = choose|a: int| 0 <= a < pre.len() && #[trigger] pre[a].0 == s2;
                            assert(0 <= a < counts@.len());
                            if a == j as int {
                                assert(pre[j as int].0 == s);
                                assert(counts@[a].0 == s);
                            } else {
                                assert(counts@[a].0 == pre[a].0);
                            }
                            assert(counts@[a].0 == s2);
                        } else {
                            assert(s2 == s);
                            assert(counts@[j as int].0 == s);
                        }
                    }
                }
            },
            None => {
                counts.push((s, 1));
                proof {
                    broadcast use vstd::seq_lib::group_to_multiset_ensures;
                    broadcast use vstd::multiset::group_multiset_axioms;

                    assert(!taken.contains(s));
                    assert(taken.to_multiset().count(s) == 0);
                    assert forall|a: int, b: int| 0 <= a < b < counts@.len() implies counts@[a].0
                        != counts@[b].0 by {
                        if b == pre.len() as int {
                            assert(counts@[b].0 == s);
                            assert(!has_key(pre, s));
                            assert(pre[a].0 != s);
                        } else {
                            assert(pre[a].0 != pre[b].0);
                        }
                    }
                    assert forall|a: int|
                        0 <= a < counts@.len() implies (#[trigger] counts@[a]).1 == hit_count(
                        occv.take(i + 1),
                        counts@[a].0,
                    ) && counts@[a].1 <= i + 1 && occv.take(i + 1).contains(counts@[a].0) by {
                        if a == pre.len() as int {
                            assert(counts@[a] == (s, 1usize));
                        } else {
                            assert(has_key(pre, pre[a].0));
                            assert(pre[a].0 != s);
                            lemma_take_succ_contains(occv, i as int, pre[a].0);
                        }
                    }
                    assert forall|s2: u16| occv.take(i + 1).contains(s2) implies has_key(
                        counts@,
                        s2,
                    ) by {
                        assert(occv.take(i + 1).len() == i + 1);
                        let idx = choose|idx: int|
                            0 <= idx < i + 1 && #[trigger] occv.take(i + 1)[idx] == s2;
                        if idx < i as int {
                            assert(taken[idx] == s2);
                            assert(taken.contains(s2));
                            assert(has_key(pre, s2));
                            let a = choose|a: int| 0 <= a < pre.len() && #[trigger] pre[a].0 == s2;
                            assert(counts@[a].0 == s2);
                        } else {
                            assert(s2 == s);
                            assert(counts@[pre.len() as int].0 == s);
                        }
                    }
                }
            },
        }
        i = i + 1;
    }
    proof {
        assert(occv.take(occv.len() as int) =~= occv);
    }
    counts
}

/// Sorts the tallies into display order by repeated selection of the best
/// remaining entry.
fn sort_by_rank(v: Vec<(u16, usize)>) -> (r: Vec<(u16, usize)>)
    ensures
        r@.to_multiset() == v@.to_multiset(),
        forall|i: int, j: int|
            #![trigger r@[i], r@[j]]
            0 <= i < j < r@.len() ==> rank_leq(r@[i], r@[j]),
{
    let ghost orig = v@;
    let mut src = v;
    let mut out: Vec<(u16, usize)> = Vec::new();
    proof {
        broadcast use vstd::seq_lib::group_to_multiset_ensures;
        broadcast use vstd::multiset::group_multiset_axioms;

        assert(out@.to_multiset().add(src@.to_multiset()) =~= orig.to_multiset());
    }
    while src.len() > 0
        invariant
            out@.to_multiset().add(src@.to_multiset()) == orig.to_multiset(),
            forall|i: int, j: int|
                #![trigger out@[i], out@[j]]
                0 <= i < j < out@.len() ==> rank_leq(out@[i], out@[j]),
            forall|a: int, b: int|
                #![trigger out@[a], src@[b]]
                0 <= a < out@.len() && 0 <= b < src@.len() ==> rank_leq(out@[a], src@[b]),
        decreases src@.len(),
    {
        let mut m: usize = 0;
        let mut t: usize = 1;
        while t < src.len()
            invariant
                src@.len() > 0,
                m < src@.len(),
                t <= src@.len(),
                forall|b: int| 0 <= b < t ==> rank_leq(src@[m as int], src@[b]),
            decreases src@.len() - t,
        {
            let better = src[t].1 > src[m].1 || (src[t].1 == src[m].1 && src[t].0 <= src[m].0);
            if better {
                m = t;
            }
            t = t + 1;
        }
        let ghost pre_out = out@;
        let ghost pre_src = src@;
        let e = src.remove(m);
        out.push(e);
        proof {
            broadcast use vstd::seq_lib::group_to_multiset_ensures;
            broadcast use vstd::multiset::group_multiset_axioms;

            assert(pre_src.contains(e));
            assert(src@.to_multiset() == pre_src.to_multiset().remove(e));
            assert(out@.to_multiset() == pre_out.to_multiset().insert(e));
            assert(out@.to_multiset().add(src@.to_multiset()) =~= orig.to_multiset());
            assert forall|a: int, b: int|
                0 <= a < out@.len() && 0 <= b < src@.len() implies rank_leq(
                #[trigger] out@[a],
                #[trigger] src@[b],
            ) by {
                let ghost old_b = if b < m as int {
                    b
                } else {
                    b + 1
                };
                assert(src@[b] == pre_src[old_b]);
                if a < pre_out.len() as int {
                    assert(rank_leq(pre_out[a], pre_src[old_b]));
                } else {
                    assert(out@[a] == e);
                    assert(rank_leq(pre_src[m as int], pre_src[old_b]));
                }
            }
            assert forall|i: int, j: int|
                0 <= i < j < out@.len() implies rank_leq(#[trigger] out@[i], #[trigger] out@[j]) by {
                if j < pre_out.len() as int {
                    assert(rank_leq(pre_out[i], pre_out[j]));
                } else {
                    assert(out@[j] == e);
                    assert(rank_leq(pre_out[i], pre_src[m as int]));
                }
            }
        }
    }
    proof {
        broadcast use vstd::seq_lib::group_to_multiset_ensures;
        broadcast use vstd::multiset::group_multiset_axioms;

        assert(src@.len() == 0);
        assert(out@.to_multiset() =~= orig.to_multiset());
    }
    out
}

impl Index {
    /// The ranked lookup: collects the postings of every non-stop query
    /// term, then returns each hit sequence number once, ordered by
    /// descending hit count, ties by ascending sequence number.
    pub fn search(&self, query: &Vec<String>) -> (r: Vec<u16>)
        requires
            self.wf(),
        ensures
            ranked_result(
                query_hits(self.postings_view(), self.stops_view(), query.deep_view()),
                r@,
            ),
    {
        let ghost ps = self.postings_view();
        let ghost stops = self.stops_view();
        let ghost q = query.deep_view();
        let mut occ: Vec<u16> = Vec::new();
        let mut i: usize = 0;
        proof {
            assert(q.skip(0) =~= q);
        }
        while i < query.len()
            invariant
                i <= query@.len(),
                q == query.deep_view(),
                ps == self.postings_view(),
                stops == self.stops_view(),
                wf_postings(ps),
                occ@ + query_hits(ps, stops, q.skip(i as int)) == query_hits(ps, stops, q),
            decreases query@.len() - i,
        {
            let ghost pre = occ@;
            proof {
                assert(q[i as int] == query@[i as int]@);
                assert(q.skip(i as int).first() == q[i as int]);
                assert(q.skip(i as int).drop_first() =~= q.skip(i + 1));
            }
            let word = &query[i];
            if !self.is_stop(word.as_str()) {
                let mut hits = self.lookup_word(word.as_str());
                occ.append(&mut hits);
                proof {
                    assert((pre + postings_of(ps, clean_stem_spec(q[i as int]))) + query_hits(
                        ps,
                        stops,
                        q.skip(i + 1),
                    ) =~= pre + (postings_of(ps, clean_stem_spec(q[i as int])) + query_hits(
                        ps,
                        stops,
                        q.skip(i + 1),
                    )));
                }
            } else {
                proof {
                    assert(Seq::<u16>::empty() + query_hits(ps, stops, q.skip(i + 1)) =~= query_hits(
                        ps,
                        stops,
                        q.skip(i + 1),
                    ));
                }
            }
            i = i + 1;
        }
        proof {
            assert(q.skip(query@.len() as int).len() == 0);
            assert(occ@ + Seq::<u16>::empty() =~= occ@);
        }
        let ghost occv = occ@;
        let counts = count_hits(&occ);
        let ghost cs = counts@;
        let sorted = sort_by_rank(counts);
        let mut r: Vec<u16> = Vec::new();
        let mut t: usize = 0;
        while t < sorted.len()
            invariant
                t <= sorted@.len(),
                r@.len() == t,
                forall|a: int| 0 <= a < t ==> r@[a] == (#[trigger] sorted@[a]).0,
            decreases sorted@.len() - t,
        {
            r.push(sorted[t].0);
            t = t + 1;
        }
        proof {
            broadcast use vstd::seq_lib::group_to_multiset_ensures;
            broadcast use vstd::multiset::group_multiset_axioms;

            // tallies are pairwise distinct, so the sorted copy has no
            // repeated entry and no repeated key
            assert forall|a: int, b: int|
                0 <= a < cs.len() && 0 <= b < cs.len() && a != b implies cs[a] != cs[b] by {
                if a < b {
                    assert(cs[a].0 != cs[b].0);
                } else {
                    assert(cs[b].0 != cs[a].0);
                }
            }
            cs.lemma_multiset_has_no_duplicates();
            sorted@.lemma_multiset_has_no_duplicates_conv();
            assert forall|a: int| 0 <= a < sorted@.len() implies cs.contains(
                #[trigger] sorted@[a],
            ) by {
                assert(sorted@.to_multiset().count(sorted@[a]) > 0);
            }
            assert forall|a: int, b: int|
                0 <= a < b < sorted@.len() implies (#[trigger] sorted@[a]).0 != (
            #[trigger] sorted@[b]).0 by {
                let ia = choose|ia: int| 0 <= ia < cs.len() && cs[ia] == sorted@[a];
                let ib = choose|ib: int| 0 <= ib < cs.len() && cs[ib] == sorted@[b];
                assert(sorted@[a] != sorted@[b]);
                if ia < ib {
                    assert(cs[ia].0 != cs[ib].0);
                } else if ib < ia {
                    assert(cs[ib].0 != cs[ia].0);
                }
            }
            assert forall|a: int, b: int|
                0 <= a < r@.len() && 0 <= b < r@.len() && a != b implies r@[a] != r@[b] by {
                if a < b {
                    assert(sorted@[a].0 != sorted@[b].0);
                } else {
                    assert(sorted@[b].0 != sorted@[a].0);
                }
            }
            assert forall|s: u16| r@.contains(s) implies occv.contains(s) by {
                let a = choose|a: int| 0 <= a < r@.len() && r@[a] == s;
                assert(cs.contains(sorted@[a]));
                let ia = choose|ia: int| 0 <= ia < cs.len() && cs[ia] == sorted@[a];
                assert(occv.contains(cs[ia].0));
            }
            assert forall|s: u16| occv.contains(s) implies r@.contains(s) by {
                assert(has_key(cs, s));
                let ia = choose|ia: int| 0 <= ia < cs.len() && cs[ia].0 == s;
                assert(cs.to_multiset().count(cs[ia]) > 0);
                assert(sorted@.to_multiset().count(cs[ia]) > 0);
                assert(sorted@.contains(cs[ia]));
                let b = choose|b: int| 0 <= b < sorted@.len() && sorted@[b] == cs[ia];
                assert(r@[b] == s);
            }
            assert forall|a: int, b: int|
                #![trigger r@[a], r@[b]]
                0 <= a < b < r@.len() implies hit_count(occv, r@[a]) > hit_count(occv, r@[b]) || (
            hit_count(occv, r@[a]) == hit_count(occv, r@[b]) && r@[a] < r@[b]) by {
                assert(rank_leq(sorted@[a], sorted@[b]));
                assert(cs.contains(sorted@[a]));
                assert(cs.contains(sorted@[b]));
                let ia = choose|ia: int| 0 <= ia < cs.len() && cs[ia] == sorted@[a];
                let ib = choose|ib: int| 0 <= ib < cs.len() && cs[ib] == sorted@[b];
                assert(cs[ia].1 == hit_count(occv, cs[ia].0));
                assert(cs[ib].1 == hit_count(occv, cs[ib].0));
                assert(sorted@[a].0 != sorted@[b].0);
            }
        }
        r
    }
}

// ---------------------------------------------------------------------------
// Resolving sequence numbers back to records
// ---------------------------------------------------------------------------

/// The non-blank lines, in order: what sequence numbers index into.
pub open spec fn non_blank_lines(lines: Seq<Seq<char>>) -> Seq<Seq<char>>
    decreases lines.len(),
{
    if lines.len() == 0 {
        seq![]
    } else {
        non_blank_lines(lines.drop_last()) + if is_blank(lines.last()) {
            seq![]
        } else {
            seq![lines.last()]
        }
    }
}

/// Sequence numbers resolved back to records, at most `n` of them, in the
/// given order. A number beyond the store or naming an unparsable line
/// yields nothing and does not count toward `n`.
pub open spec fn resolve_spec(nb: Seq<Seq<char>>, seqs: Seq<u16>, n: int) -> Seq<(u64, Seq<char>)>
    decreases seqs.len(),
{
    if n <= 0 || seqs.len() == 0 {
        seq![]
    } else {
        let s = seqs.first();
        match (if (s as int) < nb.len() {
            parse_line(nb[s as int])
        } else {
            None
        }) {
            Some(r) => seq![r] + resolve_spec(nb, seqs.drop_first(), n - 1),
            None => resolve_spec(nb, seqs.drop_first(), n),
        }
    }
}

fn collect_non_blank(lines: &Vec<String>) -> (r: Vec<String>)
    ensures
        r.deep_view() == non_blank_lines(lines.deep_view()),
{
    let ghost deep = lines.deep_view();
    let mut out: Vec<String> = Vec::new();
    let mut i: usize = 0;
    proof {
        assert(deep.take(0) =~= Seq::<Seq<char>>::empty());
        assert(out.deep_view() =~= non_blank_lines(deep.take(0)));
    }
    while i < lines.len()
        invariant
            i <= lines@.len(),
            deep == lines.deep_view(),
            out.deep_view() == non_blank_lines(deep.take(i as int)),
        decreases lines@.len() - i,
    {
        let ghost pre = out.deep_view();
        proof {
            assert(deep[i as int] == lines@[i as int]@);
            assert(deep.take(i + 1).drop_last() =~= deep.take(i as int));
            assert(deep.take(i + 1).last() == deep[i as int]);
        }
        if !is_blank_line(lines[i].as_str()) {
            let line = lines[i].clone();
            out.push(line);
            proof {
                assert(out.deep_view() =~= pre + seq![deep[i as int]]);
            }
        } else {
            proof {
                assert(pre + Seq::<Seq<char>>::empty() =~= pre);
            }
        }
        i = i + 1;
    }
    proof {
        assert(deep.take(lines@.len() as int) =~= deep);
    }
    out
}

/// One full search pass: ranks the hits of the query against the index,
/// resolves the winning sequence numbers through the store's lines, and
/// returns at most `n` records, best match first.
pub fn search(index: &Index, lines: &Vec<String>, query: &Vec<String>, n: usize) -> (r: Vec<
    Record,
>)
    requires
        index.wf(),
    ensures
        exists|ranked: Seq<u16>|
            ranked_result(
                query_hits(index.postings_view(), index.stops_view(), query.deep_view()),
                ranked,
            ) && r.deep_view() == resolve_spec(
                non_blank_lines(lines.deep_view()),
                ranked,
                n as int,
            ),
{
    let seqs = index.search(query);
    let nb = collect_non_blank(lines);
    let ghost nbv = nb.deep_view();
    let ghost sv = seqs@;
    let mut out: Vec<Record> = Vec::new();
    let mut i: usize = 0;
    proof {
        assert(sv.skip(0) =~= sv);
    }
    while i < seqs.len() && out.len() < n
        invariant
            i <= seqs@.len(),
            sv == seqs@,
            nbv == nb.deep_view(),
            out@.len() <= n,
            out.deep_view() + resolve_spec(nbv, sv.skip(i as int), n - out@.len()) == resolve_spec(
                nbv,
                sv,
                n as int,
            ),
        decreases seqs@.len() - i,
    {
        let ghost pre = out.deep_view();
        proof {
            assert(sv.skip(i as int).first() == sv[i as int]);
            assert(sv.skip(i as int).drop_first() =~= sv.skip(i + 1));
        }
        let s = seqs[i];
        if (s as usize) < nb.len() {
            proof {
                assert(nbv[s as int] == nb@[s as int]@);
            }
            match Record::from_store(nb[s as usize].as_str()) {
                Some(rec) => {
                    out.push(rec);
                    proof {
                        assert(out.deep_view() =~= pre + seq![out.deep_view().last()]);
                        assert((pre + seq![out.deep_view().last()]) + resolve_spec(
                            nbv,
                            sv.skip(i + 1),
                            n - out@.len(),
                        ) =~= pre + (seq![out.deep_view().last()] + resolve_spec(
                            nbv,
                            sv.skip(i + 1),
                            n - out@.len(),
                        )));
                    }
                },
                None => {},
            }
        }
        i = i + 1;
    }
    proof {
        if out@.len() < n {
            assert(sv.skip(seqs@.len() as int).len() == 0);
        }
        assert(out.deep_view() + Seq::<(u64, Seq<char>)>::empty() =~= out.deep_view());
        assert(out.deep_view() == resolve_spec(nbv, sv, n as int));
        assert(ranked_result(
            query_hits(index.postings_view(), index.stops_view(), query.deep_view()),
            sv,
        ));
    }
    out
}

// ---------------------------------------------------------------------------
// Persistence
// ---------------------------------------------------------------------------

pub uninterp spec fn encoded_postings(pm: Seq<(Seq<char>, Seq<u16>)>) -> Seq<u8>;

/// Relies on bincode::serialize (fixed-width integers, little endian, no
/// byte limit): the bytes are a function of the serialized value alone.
/// Writing this type into memory has no failure path — the size pass never
/// errors under the unlimited bound and a `Vec` writer cannot fail — and
/// the leading length word makes the encoding non-empty.
#[verifier::external_body]
fn encode_pairs(pairs: &Vec<(String, Vec<u16>)>) -> (r: Vec<u8>)
    ensures
        r@ == encoded_postings(pairs.deep_view()),
        r@.len() > 0,
{
    bincode::serialize(pairs).expect("serializing the postings into memory cannot fail")
}

/// What decoding promises: whenever the bytes are the encoding of some
/// postings map, the decoder hands back exactly that map.
pub open spec fn decodes_encoding(bytes: Seq<u8>, r: Option<Vec<(String, Vec<u16>)>>) -> bool {
    forall|pm: Seq<(Seq<char>, Seq<u16>)>|
        bytes == encoded_postings(pm) ==> (r matches Some(v) && v.deep_view() == pm)
}

/// Relies on bincode::deserialize: deserializing exactly what
/// bincode::serialize produced returns the serialized value.
#[verifier::external_body]
fn decode_pairs(bytes: &Vec<u8>) -> (r: Option<Vec<(String, Vec<u16>)>>)
    ensures
        decodes_encoding(bytes@, r),
{
    bincode::deserialize(bytes.as_slice()).ok()
}

fn keys_distinct(pairs: &Vec<(String, Vec<u16>)>) -> (r: bool)
    ensures
        r == wf_postings(pairs.deep_view()),
{
    let ghost ps = pairs.deep_view();
    let mut i: usize = 0;
    while i < pairs.len()
        invariant
            i <= pairs@.len(),
            ps == pairs.deep_view(),
            forall|a: int, b: int|
                #![trigger ps[a].0, ps[b].0]
                0 <= a < i && a < b < ps.len() ==> ps[a].0 != ps[b].0,
        decreases pairs@.len() - i,
    {
        let mut j: usize = i + 1;
        while j < pairs.len()
            invariant
                i < j,
                j <= pairs@.len(),
                i < pairs@.len(),
                ps == pairs.deep_view(),
                forall|b: int| i < b < j ==> ps[i as int].0 != (#[trigger] ps[b]).0,
            decreases pairs@.len() - j,
        {
            proof {
                assert(ps[i as int] == (pairs@[i as int].0@, pairs@[i as int].1@));
                assert(ps[j as int] == (pairs@[j as int].0@, pairs@[j as int].1@));
            }
            if pairs[j].0 == pairs[i].0 {
                proof {
                    assert(ps[i as int].0 == ps[j as int].0);
                    assert(!wf_postings(ps));
                }
                return false;
            }
            j = j + 1;
        }
        i = i + 1;
    }
    true
}

impl Index {
    /// Serializes the postings map for the index file; the stopwords are
    /// not persisted. The bytes are never empty, so a saved index is told
    /// apart from the empty index file.
    pub fn save(&self) -> (r: Vec<u8>)
        ensures
            r@ == encoded_postings(self.postings_view()),
            r@.len() > 0,
    {
        encode_pairs(&self.postings)
    }

    /// Rebuilds an index from the bytes of the index file, with the given
    /// stopword lines. A zero-length file is the valid empty index; bytes
    /// that do not decode to a postings map are an error; the bytes a
    /// well-formed map was saved under load back to exactly that map.
    pub fn load(index_bytes: &Vec<u8>, stop_lines: &Vec<String>) -> (r: Result<Index, KprError>)
        ensures
            r matches Ok(ix) ==> (ix.wf() && ix.stops_view() == cleaned_stops(
                stop_lines.deep_view(),
            )),
            index_bytes@.len() == 0 ==> (r matches Ok(ix) && ix.postings_view() == Seq::<
                (Seq<char>, Seq<u16>),
            >::empty()),
            forall|pm: Seq<(Seq<char>, Seq<u16>)>|
                index_bytes@.len() > 0 && index_bytes@ == encoded_postings(pm) && wf_postings(pm)
                    ==> (r matches Ok(ix) && ix.postings_view() == pm),
    {
        let empty = Index::new(stop_lines);
        if index_bytes.len() == 0 {
            return Ok(empty);
        }
        match decode_pairs(index_bytes) {
            None => Err(KprError::new("Could not deserialize index file")),
            Some(pairs) => {
                if keys_distinct(&pairs) {
                    let ix = Index { postings: pairs, stop_words: empty.stop_words };
                    Ok(ix)
                } else {
                    Err(KprError::new("Could not deserialize index file"))
                }
            },
        }
    }
}

/// A full rebuild from the store's lines, serialized for the index file.
pub fn reindex(lines: &Vec<String>, stop_lines: &Vec<String>) -> (r: Vec<u8>)
    requires
        non_blank_count(lines.deep_view()) <= u16::MAX as int + 1,
    ensures
        r@ == encoded_postings(
            build_spec(lines.deep_view(), cleaned_stops(stop_lines.deep_view())),
        ),
        r@.len() > 0,
{
    let ix = Index::from_lines(lines, stop_lines);
    ix.save()
}

// ---------------------------------------------------------------------------
// Index determinism
// ---------------------------------------------------------------------------

/// The non-blank lines paired with their sequence numbers, counted from
/// `next`: the appends an incremental caller would replay.
pub open spec fn numbered_lines(lines: Seq<Seq<char>>, next: int) -> Seq<(u16, Seq<char>)>
    decreases lines.len(),
{
    if lines.len() == 0 {
        seq![]
    } else if is_blank(lines.first()) {
        numbered_lines(lines.drop_first(), next)
    } else {
        seq![(next as u16, lines.first())] + numbered_lines(lines.drop_first(), next + 1)
    }
}

/// `add_line` replayed over the numbered lines, in order.
pub open spec fn replay_lines(
    ps: Seq<(Seq<char>, Seq<u16>)>,
    stops: Seq<Seq<char>>,
    steps: Seq<(u16, Seq<char>)>,
) -> Seq<(Seq<char>, Seq<u16>)>
    decreases steps.len(),
{
    if steps.len() == 0 {
        ps
    } else {
        replay_lines(
            add_line_spec(ps, stops, steps.first().0, steps.first().1),
            stops,
            steps.drop_first(),
        )
    }
}

proof fn lemma_build_acc_is_replay(
    ps: Seq<(Seq<char>, Seq<u16>)>,
    stops: Seq<Seq<char>>,
    lines: Seq<Seq<char>>,
    next: int,
)
    ensures
        build_acc(ps, stops, lines, next) == replay_lines(ps, stops, numbered_lines(lines, next)),
    decreases lines.len(),
{
    if lines.len() == 0 {
    } else if is_blank(lines.first()) {
        lemma_build_acc_is_replay(ps, stops, lines.drop_first(), next);
    } else {
        let steps = numbered_lines(lines, next);
        assert(steps.first() == (next as u16, lines.first()));
        assert(steps.drop_first() =~= numbered_lines(lines.drop_first(), next + 1));
        lemma_build_acc_is_replay(
            add_line_spec(ps, stops, next as u16, lines.first()),
            stops,
            lines.drop_first(),
            next + 1,
        );
    }
}

/// Index determinism: the full rebuild over a store's lines equals
/// replaying `add_line`, record by record with its sequence number, on an
/// empty index.
pub proof fn lemma_index_determinism(lines: Seq<Seq<char>>, stops: Seq<Seq<char>>)
    ensures
        build_spec(lines, stops) == replay_lines(seq![], stops, numbered_lines(lines, 0)),
{
    lemma_build_acc_is_replay(seq![], stops, lines, 0);
}

// ---------------------------------------------------------------------------
// Stopword exclusion
// ---------------------------------------------------------------------------

proof fn lemma_add_word_keys(ps: Seq<(Seq<char>, Seq<u16>)>, k: Seq<char>, n: u16, k2: Seq<char>)
    requires
        has_term(add_word_spec(ps, k, n), k2),
    ensures
        has_term(ps, k2) || k2 == k,
{
    let new = add_word_spec(ps, k, n);
    let a = choose|a: int| 0 <= a < new.len() && new[a].0 == k2;
    if has_term(ps, k) {
        let ti = term_index(ps, k);
        assert(0 <= ti < ps.len() && ps[ti].0 == k);
        if a == ti {
            assert(k2 == k);
        } else {
            assert(ps[a].0 == k2);
        }
    } else {
        if a < ps.len() {
            assert(ps[a].0 == k2);
        } else {
            assert(k2 == k);
        }
    }
}

proof fn lemma_add_tokens_no_stop_key(
    ps: Seq<(Seq<char>, Seq<u16>)>,
    stops: Seq<Seq<char>>,
    toks: Seq<Seq<char>>,
    n: u16,
    k: Seq<char>,
)
    requires
        forall|w: Seq<char>| #[trigger] clean_stem_spec(w) == k ==> is_stop_spec(stops, w),
        !has_term(ps, k),
    ensures
        !has_term(add_tokens_spec(ps, stops, toks, n), k),
    decreases toks.len(),
{
    if toks.len() > 0 {
        let w = toks.first();
        if is_stop_spec(stops, w) {
            lemma_add_tokens_no_stop_key(ps, stops, toks.drop_first(), n, k);
        } else {
            let stepped = add_word_spec(ps, clean_stem_spec(w), n);
            assert(clean_stem_spec(w) != k);
            if has_term(stepped, k) {
                lemma_add_word_keys(ps, clean_stem_spec(w), n, k);
            }
            lemma_add_tokens_no_stop_key(stepped, stops, toks.drop_first(), n, k);
        }
    }
}

proof fn lemma_build_no_stop_key(
    ps: Seq<(Seq<char>, Seq<u16>)>,
    stops: Seq<Seq<char>>,
    lines: Seq<Seq<char>>,
    next: int,
    k: Seq<char>,
)
    requires
        forall|w: Seq<char>| #[trigger] clean_stem_spec(w) == k ==> is_stop_spec(stops, w),
        !has_term(ps, k),
    ensures
        !has_term(build_acc(ps, stops, lines, next), k),
    decreases lines.len(),
{
    if lines.len() > 0 {
        if is_blank(lines.first()) {
            lemma_build_no_stop_key(ps, stops, lines.drop_first(), next, k);
        } else {
            let stepped = add_line_spec(ps, stops, next as u16, lines.first());
            match parse_line(lines.first()) {
                None => {},
                Some((ms, msg)) => {
                    lemma_add_tokens_no_stop_key(ps, stops, tokens_of(msg), next as u16, k);
                },
            }
            lemma_build_no_stop_key(stepped, stops, lines.drop_first(), next + 1, k);
        }
    }
}

/// Stopword exclusion: a term that only stop words could map to — every
/// word whose cleaned, stemmed form is `k` is a stop word — never appears
/// as a postings key of a full build.
pub proof fn lemma_stopword_exclusion(lines: Seq<Seq<char>>, stops: Seq<Seq<char>>, k: Seq<char>)
    requires
        forall|w: Seq<char>| #[trigger] clean_stem_spec(w) == k ==> is_stop_spec(stops, w),
    ensures
        !has_term(build_spec(lines, stops), k),
{
    assert(!has_term(seq![], k));
    lemma_build_no_stop_key(seq![], stops, lines, 0, k);
}

// ---------------------------------------------------------------------------
// Ranking monotonicity
// ---------------------------------------------------------------------------

/// Ranking monotonicity: in a ranked result, a sequence number with
/// strictly more hits stands strictly earlier. A record matching two query
/// terms therefore ranks above one matching only one of them.
pub proof fn lemma_ranking_monotonicity(occ: Seq<u16>, ranked: Seq<u16>, r: u16, s: u16)
    requires
        ranked_result(occ, ranked),
        occ.contains(r),
        occ.contains(s),
        hit_count(occ, s) > hit_count(occ, r),
    ensures
        0 <= ranked.index_of(s) < ranked.len(),
        0 <= ranked.index_of(r) < ranked.len(),
        ranked.index_of(s) < ranked.index_of(r),
{
    assert(ranked.contains(s));
    assert(ranked.contains(r));
    let i = ranked.index_of(s);
    let j = ranked.index_of(r);
    assert(0 <= i < ranked.len() && ranked[i] == s);
    assert(0 <= j < ranked.len() && ranked[j] == r);
    assert(s != r);
    if i > j {
        assert(hit_count(occ, ranked[j]) > hit_count(occ, ranked[i]) || (hit_count(
            occ,
            ranked[j],
        ) == hit_count(occ, ranked[i]) && ranked[j] < ranked[i]));
    }
}

proof fn lemma_count_take_le(lines: Seq<Seq<char>>, i: int)
    requires
        0 <= i <= lines.len(),
    ensures
        non_blank_count(lines.take(i)) <= non_blank_count(lines),
    decreases lines.len(),
{
    if i < lines.len() {
        assert(lines.drop_last().take(i) =~= lines.take(i));
        lemma_count_take_le(lines.drop_last(), i);
        crate::store::lemma_non_blank_count_bounds(lines.drop_last());
    } else {
        assert(lines.take(i) =~= lines);
    }
}

} // verus!
