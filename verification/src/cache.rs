//! The frecency store: a persisted mapping from visited path to usage score.
//!
//! Scores are kept in hundredths of a visit (`SCORE_UNIT`), so one recorded
//! visit adds exactly 1.00 and the global decay multiplies by 99/100. The
//! store is modelled as a sequence of `(path, score)` pairs with pairwise
//! distinct keys; its persisted form is one `<path>|<score>` record per line.

use vstd::prelude::*;
use crate::decimal::{
    SCORE_UNIT, score_text, score_text_val, score_text_valid, parse_score, push_score_text,
    lemma_score_text_round_trip, lemma_score_text_wf,
};
use crate::strings::{split_seq, split_chars, chars_of, str_eq, string_from_chars,
    lemma_split_seq_shape, lemma_split_chars_origin, lemma_split_sep_concat, lemma_split_whole};
use vstd::string::StringExecFns;

verus! {

/// Hundredths of a visit per recorded visit: scores carry two fixed
/// decimal places.
pub const VISIT_INCREMENT: u64 = SCORE_UNIT;

/// Default ceiling on the total score (9000.00) before decay applies.
pub const DEFAULT_MAX_SCORE: u64 = 900000;

#[derive(Debug)]
pub enum Error {
    /// A persisted record without the `<path>|<score>` shape, carrying the
    /// offending line.
    InvalidEntry(String),
    /// An underlying read, write or lock failure, by its message.
    Io(String),
    /// Ranking found no candidate to choose from.
    NoCandidates,
}

/// One persisted fact: the score of a path, in hundredths of a visit.
#[derive(Debug)]
pub struct CacheEntry {
    score: u64,
}

impl View for CacheEntry {
    type V = nat;

    closed spec fn view(&self) -> nat {
        self.score as nat
    }
}

impl CacheEntry {
    /// Create a new cache entry
    pub fn new(score: u64) -> (e: CacheEntry)
        ensures
            e@ == score as nat,
    {
        CacheEntry { score }
    }

    /// Get score from entry.
    pub fn score(&self) -> (s: u64)
        ensures
            s as nat == self@,
    {
        self.score
    }
}

/// A key may not contain the record separator or a line break; persisted
/// keys are canonical absolute paths, which never carry either.
pub open spec fn valid_key(k: Seq<char>) -> bool {
    forall|i: int| 0 <= i < k.len() ==> k[i] != '|' && k[i] != '\n'
}

/// Does `k` occur as a key in `s`?
pub open spec fn has_key(s: Seq<(Seq<char>, nat)>, k: Seq<char>) -> bool
    decreases s.len(),
{
    if s.len() == 0 {
        false
    } else {
        s[0].0 == k || has_key(s.skip(1), k)
    }
}

/// Are the keys of `s` pairwise distinct?
pub open spec fn distinct_keys(s: Seq<(Seq<char>, nat)>) -> bool
    decreases s.len(),
{
    if s.len() == 0 {
        true
    } else {
        !has_key(s.skip(1), s[0].0) && distinct_keys(s.skip(1))
    }
}

/// The score of `k` in `s`, or 0 when absent.
pub open spec fn lookup_in(s: Seq<(Seq<char>, nat)>, k: Seq<char>) -> nat
    decreases s.len(),
{
    if s.len() == 0 {
        0
    } else if s[0].0 == k {
        s[0].1
    } else {
        lookup_in(s.skip(1), k)
    }
}

/// `s` with the score of `k` set to `v`: in place when `k` is present,
/// appended otherwise.
pub open spec fn store_put(s: Seq<(Seq<char>, nat)>, k: Seq<char>, v: nat) -> Seq<
    (Seq<char>, nat),
>
    decreases s.len(),
{
    if s.len() == 0 {
        seq![(k, v)]
    } else if s[0].0 == k {
        seq![(k, v)] + s.skip(1)
    } else {
        seq![s[0]] + store_put(s.skip(1), k, v)
    }
}

/// The sum of all scores in `s`.
pub open spec fn total_score(s: Seq<(Seq<char>, nat)>) -> nat
    decreases s.len(),
{
    if s.len() == 0 {
        0
    } else {
        total_score(s.drop_last()) + s.last().1
    }
}

pub proof fn lemma_store_put(s: Seq<(Seq<char>, nat)>, k: Seq<char>, v: nat)
    ensures
        lookup_in(store_put(s, k, v), k) == v,
        forall|k2: Seq<char>|
            k2 != k ==> lookup_in(store_put(s, k, v), k2) == lookup_in(s, k2),
        forall|k2: Seq<char>|
            (#[trigger] has_key(store_put(s, k, v), k2)) == (k2 == k || has_key(s, k2)),
        distinct_keys(s) ==> distinct_keys(store_put(s, k, v)),
        has_key(s, k) ==> store_put(s, k, v).len() == s.len(),
        !has_key(s, k) ==> store_put(s, k, v).len() == s.len() + 1,
    decreases s.len(),
{
    let p = store_put(s, k, v);
    if s.len() == 0 {
        assert(p == seq![(k, v)]);
        assert(p.skip(1) =~= Seq::<(Seq<char>, nat)>::empty());
        assert forall|k2: Seq<char>| k2 != k implies lookup_in(p, k2) == lookup_in(s, k2) by {
            assert(lookup_in(p, k2) == lookup_in(p.skip(1), k2));
        }
        assert forall|k2: Seq<char>|
            (#[trigger] has_key(p, k2)) == (k2 == k || has_key(s, k2)) by {
            assert(has_key(p, k2) == (p[0].0 == k2 || has_key(p.skip(1), k2)));
        }
        assert(!has_key(p.skip(1), p[0].0));
        assert(distinct_keys(p.skip(1)));
        assert(distinct_keys(p));
    } else if s[0].0 == k {
        assert(p == seq![(k, v)] + s.skip(1));
        assert(p.skip(1) =~= s.skip(1));
        assert(p[0] == (k, v));
        assert forall|k2: Seq<char>| k2 != k implies lookup_in(p, k2) == lookup_in(s, k2) by {
            assert(lookup_in(p, k2) == lookup_in(p.skip(1), k2));
            assert(lookup_in(s, k2) == lookup_in(s.skip(1), k2));
        }
        assert forall|k2: Seq<char>|
            (#[trigger] has_key(p, k2)) == (k2 == k || has_key(s, k2)) by {
            assert(has_key(p, k2) == (p[0].0 == k2 || has_key(p.skip(1), k2)));
            assert(has_key(s, k2) == (s[0].0 == k2 || has_key(s.skip(1), k2)));
        }
        if distinct_keys(s) {
            assert(!has_key(s.skip(1), s[0].0));
            assert(!has_key(p.skip(1), p[0].0));
            assert(distinct_keys(p));
        }
    } else {
        lemma_store_put(s.skip(1), k, v);
        assert(p == seq![s[0]] + store_put(s.skip(1), k, v));
        assert(p.skip(1) =~= store_put(s.skip(1), k, v));
        assert(p[0] == s[0]);
        assert forall|k2: Seq<char>| k2 != k implies lookup_in(p, k2) == lookup_in(s, k2) by {
            if s[0].0 != k2 {
                assert(lookup_in(p, k2) == lookup_in(p.skip(1), k2));
                assert(lookup_in(s, k2) == lookup_in(s.skip(1), k2));
            }
        }
        assert forall|k2: Seq<char>|
            (#[trigger] has_key(p, k2)) == (k2 == k || has_key(s, k2)) by {
            assert(has_key(p, k2) == (p[0].0 == k2 || has_key(p.skip(1), k2)));
            assert(has_key(s, k2) == (s[0].0 == k2 || has_key(s.skip(1), k2)));
        }
        if distinct_keys(s) {
            assert(!has_key(store_put(s.skip(1), k, v), s[0].0));
            assert(distinct_keys(p));
        }
    }
}

/// When the first match for `k` sits at index `i`, `store_put` is an
/// in-place update there.
pub proof fn lemma_store_put_at(s: Seq<(Seq<char>, nat)>, k: Seq<char>, v: nat, i: int)
    requires
        0 <= i < s.len(),
        s[i].0 == k,
        forall|j: int| 0 <= j < i ==> s[j].0 != k,
    ensures
        store_put(s, k, v) == s.update(i, (k, v)),
    decreases i,
{
    let p = store_put(s, k, v);
    if i == 0 {
        assert(p == seq![(k, v)] + s.skip(1));
        assert(p =~= s.update(0, (k, v)));
    } else {
        assert(s.skip(1)[i - 1].0 == k);
        lemma_store_put_at(s.skip(1), k, v, i - 1);
        assert(p == seq![s[0]] + s.skip(1).update(i - 1, (k, v)));
        assert(p =~= s.update(i, (k, v)));
    }
}

/// When `k` is absent, `store_put` appends.
pub proof fn lemma_store_put_absent(s: Seq<(Seq<char>, nat)>, k: Seq<char>, v: nat)
    requires
        forall|j: int| 0 <= j < s.len() ==> s[j].0 != k,
    ensures
        store_put(s, k, v) == s.push((k, v)),
    decreases s.len(),
{
    let p = store_put(s, k, v);
    if s.len() == 0 {
        assert(p =~= s.push((k, v)));
    } else {
        assert(forall|j: int| 0 <= j < s.skip(1).len() ==> s.skip(1)[j].0 != k);
        lemma_store_put_absent(s.skip(1), k, v);
        assert(p == seq![s[0]] + s.skip(1).push((k, v)));
        assert(p =~= s.push((k, v)));
    }
}

/// The first match decides a lookup.
pub proof fn lemma_lookup_at(s: Seq<(Seq<char>, nat)>, k: Seq<char>, i: int)
    requires
        0 <= i < s.len(),
        s[i].0 == k,
        forall|j: int| 0 <= j < i ==> s[j].0 != k,
    ensures
        lookup_in(s, k) == s[i].1,
        has_key(s, k),
    decreases i,
{
    if i > 0 {
        assert(s.skip(1)[i - 1] == s[i]);
        assert(forall|j: int| 0 <= j < i - 1 ==> s.skip(1)[j].0 != k);
        lemma_lookup_at(s.skip(1), k, i - 1);
    }
}

/// A key that matches nowhere scores 0.
pub proof fn lemma_lookup_absent(s: Seq<(Seq<char>, nat)>, k: Seq<char>)
    requires
        forall|j: int| 0 <= j < s.len() ==> s[j].0 != k,
    ensures
        lookup_in(s, k) == 0,
        !has_key(s, k),
    decreases s.len(),
{
    if s.len() > 0 {
        assert(forall|j: int| 0 <= j < s.skip(1).len() ==> s.skip(1)[j].0 != k);
        lemma_lookup_absent(s.skip(1), k);
    }
}

/// The persisted mapping from visited path to usage score.
#[derive(Debug)]
pub struct Cache {
    entries: Vec<(String, CacheEntry)>,
}

impl View for Cache {
    type V = Seq<(Seq<char>, nat)>;

    closed spec fn view(&self) -> Seq<(Seq<char>, nat)> {
        self.entries@.map_values(|p: (String, CacheEntry)| (p.0@, p.1@))
    }
}

impl Cache {
    /// Keys are pairwise distinct and free of the separator characters.
    pub open spec fn wf(&self) -> bool {
        &&& distinct_keys(self@)
        &&& forall|i: int| 0 <= i < self@.len() ==> valid_key(#[trigger] self@[i].0)
    }

    /// Create a new empty cache
    pub fn new() -> (c: Cache)
        ensures
            c@ == Seq::<(Seq<char>, nat)>::empty(),
            c.wf(),
    {
        let c = Cache { entries: Vec::new() };
        proof {
            assert(c@ =~= Seq::<(Seq<char>, nat)>::empty());
        }
        c
    }

    /// All (path, entry) pairs, for merging into the ranker.
    pub fn entries(&self) -> (r: &Vec<(String, CacheEntry)>)
        ensures
            r@.len() == self@.len(),
            forall|i: int|
                0 <= i < self@.len() ==> (#[trigger] r@[i]).0@ == self@[i].0 && r@[i].1@
                    == self@[i].1,
    {
        &self.entries
    }

    /// Index of the entry for `path`, when one exists.
    fn find_idx(&self, path: &str) -> (r: Option<usize>)
        ensures
            match r {
                Some(i) => i < self@.len() && self@[i as int].0 == path@ && forall|j: int|
                    0 <= j < i ==> self@[j].0 != path@,
                None => forall|j: int| 0 <= j < self@.len() ==> self@[j].0 != path@,
            },
    {
        let mut i: usize = 0;
        while i < self.entries.len()
            invariant
                i <= self@.len(),
                self@.len() == self.entries@.len(),
                forall|j: int| 0 <= j < i ==> self@[j].0 != path@,
                forall|j: int|
                    0 <= j < self@.len() ==> (#[trigger] self@[j]).0 == self.entries@[j].0@,
            decreases self@.len() - i,
        {
            if str_eq(self.entries[i].0.as_str(), path) {
                return Some(i);
            }
            i = i + 1;
        }
        None
    }

    /// The recorded score of `path`, or 0 when it was never visited.
    pub fn lookup(&self, path: &str) -> (r: u64)
        ensures
            r as nat == lookup_in(self@, path@),
    {
        match self.find_idx(path) {
            Some(i) => {
                proof {
                    lemma_lookup_at(self@, path@, i as int);
                }
                self.entries[i].1.score()
            },
            None => {
                proof {
                    lemma_lookup_absent(self@, path@);
                }
                0
            },
        }
    }

    /// Sets the score of `path` to `score`, in place or by appending.
    fn upsert(&mut self, path: String, score: u64)
        requires
            old(self).wf(),
            valid_key(path@),
        ensures
            final(self).wf(),
            final(self)@ == store_put(old(self)@, path@, score as nat),
    {
        proof {
            lemma_store_put(self@, path@, score as nat);
        }
        match self.find_idx(path.as_str()) {
            Some(i) => {
                proof {
                    lemma_store_put_at(self@, path@, score as nat, i as int);
                }
                let _prev = self.entries.remove(i);
                self.entries.insert(i, (path, CacheEntry::new(score)));
                proof {
                    assert(self@ =~= store_put(old(self)@, path@, score as nat));
                }
            },
            None => {
                proof {
                    lemma_store_put_absent(self@, path@, score as nat);
                }
                self.entries.push((path, CacheEntry::new(score)));
                proof {
                    assert(self@ =~= store_put(old(self)@, path@, score as nat));
                }
            },
        }
    }

    /// Records one visit: the score of `path` grows by exactly one visit
    /// unit and every other entry is untouched.
    pub fn add(&mut self, path: String)
        requires
            old(self).wf(),
            valid_key(path@),
            lookup_in(old(self)@, path@) + VISIT_INCREMENT <= u64::MAX,
        ensures
            final(self).wf(),
            final(self)@ == store_put(
                old(self)@,
                path@,
                (lookup_in(old(self)@, path@) + VISIT_INCREMENT) as nat,
            ),
            lookup_in(final(self)@, path@) == lookup_in(old(self)@, path@) + VISIT_INCREMENT,
            forall|k: Seq<char>|
                k != path@ ==> lookup_in(final(self)@, k) == lookup_in(old(self)@, k),
    {
        let cur = self.lookup(path.as_str());
        proof {
            lemma_store_put(self@, path@, (cur + VISIT_INCREMENT) as nat);
        }
        self.upsert(path, cur + VISIT_INCREMENT);
    }

    /// Global decay: when the total score exceeds the ceiling (9000.00 by
    /// default), every entry shrinks to 99/100 of its score, rounded down
    /// to the hundredth; otherwise the store is untouched.
    pub fn aging(&mut self, max_score: Option<u64>)
        requires
            old(self).wf(),
        ensures
            final(self).wf(),
            ({
                let ceiling: nat = match max_score {
                    Some(m) => m as nat,
                    None => DEFAULT_MAX_SCORE as nat,
                };
                if total_score(old(self)@) <= ceiling {
                    final(self)@ == old(self)@
                } else {
                    final(self)@.len() == old(self)@.len() && forall|i: int|
                        0 <= i < old(self)@.len() ==> (#[trigger] final(self)@[i]).0
                            == old(self)@[i].0 && final(self)@[i].1 == old(self)@[i].1 * 99 / 100
                }
            }),
    {
        let ceiling: u64 = match max_score {
            Some(m) => m,
            None => DEFAULT_MAX_SCORE,
        };
        let n = self.entries.len();
        proof {
            assert(self@.len() == self.entries@.len());
            assert(forall|j: int|
                0 <= j < self@.len() ==> (#[trigger] self@[j]) == (
                    self.entries@[j].0@,
                    self.entries@[j].1@,
                ));
            lemma_total_bound(self@);
        }
        let mut sum: u128 = 0;
        let mut i: usize = 0;
        while i < n
            invariant
                i <= n,
                n == self@.len(),
                self@.len() == self.entries@.len(),
                forall|j: int|
                    0 <= j < self@.len() ==> (#[trigger] self@[j]) == (
                        self.entries@[j].0@,
                        self.entries@[j].1@,
                    ),
                total_score(self@) <= self@.len() * (u64::MAX as nat),
                sum as nat == total_score(self@.take(i as int)),
                sum as nat <= (i as nat) * (u64::MAX as nat),
            decreases n - i,
        {
            let s = self.entries[i].1.score();
            proof {
                assert(self@.take(i as int + 1).drop_last() =~= self@.take(i as int));
                assert(self@.take(i as int + 1).last() == self@[i as int]);
                assert((i as nat) * (u64::MAX as nat) + (u64::MAX as nat) == ((i + 1) as nat) * (
                u64::MAX as nat)) by (nonlinear_arith);
            }
            sum = sum + (s as u128);
            i = i + 1;
        }
        proof {
            assert(self@.take(n as int) =~= self@);
        }
        if sum <= ceiling as u128 {
            return ;
        }
        let mut out: Vec<(String, CacheEntry)> = Vec::new();
        let mut i: usize = 0;
        while i < n
            invariant
                i <= n,
                n == self@.len(),
                self@.len() == self.entries@.len(),
                forall|j: int|
                    0 <= j < self@.len() ==> (#[trigger] self@[j]) == (
                        self.entries@[j].0@,
                        self.entries@[j].1@,
                    ),
                out@.len() == i,
                forall|j: int|
                    0 <= j < i ==> (#[trigger] out@[j]).0@ == self@[j].0 && out@[j].1@ == self@[j].1
                        * 99 / 100,
            decreases n - i,
        {
            let key = self.entries[i].0.clone();
            let s = self.entries[i].1.score();
            proof {
                assert((s as nat) * 99 <= (s as nat) * 100) by (nonlinear_arith);
                vstd::arithmetic::div_mod::lemma_div_is_ordered(
                    (s as nat) * 99 as int,
                    (s as nat) * 100 as int,
                    100,
                );
                vstd::arithmetic::div_mod::lemma_div_by_multiple(s as int, 100);
            }
            let d = ((s as u128) * 99 / 100) as u64;
            out.push((key, CacheEntry::new(d)));
            i = i + 1;
        }
        let ghost pre = self@;
        self.entries = out;
        proof {
            assert(self@.len() == pre.len());
            assert(forall|j: int|
                0 <= j < pre.len() ==> (#[trigger] self@[j]).0 == pre[j].0 && self@[j].1 == pre[j].1
                    * 99 / 100);
            lemma_same_keys(self@, pre);
        }
    }

    /// Proves from the representation that every stored score fits a `u64`.
    proof fn lemma_scores_fit(&self)
        ensures
            forall|i: int| 0 <= i < self@.len() ==> (#[trigger] self@[i]).1 <= u64::MAX,
    {
        assert forall|i: int| 0 <= i < self@.len() implies (#[trigger] self@[i]).1 <= u64::MAX by {
            assert(self@[i].1 == self.entries@[i].1@);
        }
    }

    /// Parses persisted record lines into a store. Absence of a backing
    /// file is the caller's case: hand an empty line list, or use `new`.
    /// One malformed line fails the whole load; the error carries the
    /// first such line.
    pub fn from_reader(lines: &Vec<String>) -> (r: Result<Cache, Error>)
        requires
            forall|i: int| 0 <= i < lines@.len() ==> line_ok((#[trigger] lines@[i])@),
        ensures
            match r {
                Ok(c) => c.wf() && parse_lines(lines.deep_view(), Seq::<(Seq<char>, nat)>::empty())
                    == Some(c@),
                Err(e) => {
                    &&& parse_lines(lines.deep_view(), Seq::<(Seq<char>, nat)>::empty()) is None
                    &&& first_bad_line(lines.deep_view()) >= 0
                    &&& e matches Error::InvalidEntry(l) && l@ == lines.deep_view()[first_bad_line(
                        lines.deep_view(),
                    )]
                },
            },
    {
        let ghost dv = lines.deep_view();
        let mut cache = Cache::new();
        let mut i: usize = 0;
        proof {
            assert(dv.len() == lines@.len());
            assert(forall|t: int| 0 <= t < dv.len() ==> dv[t] == (#[trigger] lines@[t])@);
            assert(dv.skip(0) =~= dv);
        }
        while i < lines.len()
            invariant
                i <= lines@.len(),
                dv == lines.deep_view(),
                dv.len() == lines@.len(),
                forall|t: int| 0 <= t < dv.len() ==> dv[t] == (#[trigger] lines@[t])@,
                forall|t: int| 0 <= t < lines@.len() ==> line_ok((#[trigger] lines@[t])@),
                cache.wf(),
                parse_lines(dv, Seq::<(Seq<char>, nat)>::empty()) == parse_lines(
                    dv.skip(i as int),
                    cache@,
                ),
                forall|t: int| 0 <= t < i ==> parse_line(#[trigger] dv[t]) is Some,
            decreases lines@.len() - i,
        {
            let line = &lines[i];
            let cs = chars_of(line.as_str());
            let pieces = split_chars(&cs, '|');
            let ghost lv = dv[i as int];
            proof {
                assert(cs@ == lv);
                lemma_split_seq_shape(lv, '|');
                lemma_split_chars_origin(lv, '|');
                assert(pieces.deep_view() == split_seq(lv, '|'));
                assert(pieces.deep_view().len() == pieces@.len());
                assert(forall|k: int|
                    0 <= k < pieces@.len() ==> pieces.deep_view()[k] == (
                    #[trigger] pieces@[k]).deep_view());
                assert(forall|k: int|
                    0 <= k < pieces@.len() ==> (#[trigger] pieces@[k]).deep_view() =~= pieces@[k]@);
                assert(dv.skip(i as int)[0] == lv);
                assert(dv.skip(i as int).skip(1) =~= dv.skip(i as int + 1));
            }
            if pieces.len() < 2 {
                proof {
                    assert(parse_line(lv) is None);
                    lemma_first_bad_at(dv, i as int);
                    assert(parse_lines(dv.skip(i as int), cache@) is None);
                }
                return Err(Error::InvalidEntry(line.clone()));
            }
            let score = match parse_score(&pieces[1]) {
                Some(v) => v,
                None => {
                    proof {
                        assert(pieces@[1]@ == split_seq(lv, '|')[1]);
                        assert(parse_line(lv) is None);
                        lemma_first_bad_at(dv, i as int);
                        assert(parse_lines(dv.skip(i as int), cache@) is None);
                    }
                    return Err(Error::InvalidEntry(line.clone()));
                },
            };
            let path = string_from_chars(&pieces[0]);
            proof {
                let ps = split_seq(lv, '|');
                assert(path@ == ps[0]);
                assert(parse_line(lv) == Some((ps[0], score as nat)));
                assert forall|j: int| 0 <= j < ps[0].len() implies ps[0][j] != '|' && ps[0][j]
                    != '\n' by {
                    assert(ps[0][j] != '|');
                    assert(lv.contains(ps[0][j]));
                    let w = choose|w: int| 0 <= w < lv.len() && lv[w] == ps[0][j];
                    assert(lines@[i as int]@[w] != '\n');
                }
                assert(valid_key(path@));
                assert(parse_lines(dv.skip(i as int), cache@) == parse_lines(
                    dv.skip(i as int + 1),
                    store_put(cache@, ps[0], score as nat),
                ));
            }
            cache.upsert(path, score);
            i = i + 1;
        }
        proof {
            assert(dv.skip(i as int).len() == 0);
            assert(parse_lines(dv.skip(i as int), cache@) == Some(cache@));
        }
        Ok(cache)
    }

    /// Renders every entry as its `<path>|<score>` line, in store order.
    pub fn to_writer(&self) -> (r: Vec<String>)
        ensures
            r.deep_view() == render_lines(self@),
    {
        let mut out: Vec<String> = Vec::new();
        let mut i: usize = 0;
        proof {
            assert(self@.len() == self.entries@.len());
            assert(forall|j: int|
                0 <= j < self@.len() ==> (#[trigger] self@[j]) == (
                    self.entries@[j].0@,
                    self.entries@[j].1@,
                ));
        }
        while i < self.entries.len()
            invariant
                i <= self@.len(),
                self@.len() == self.entries@.len(),
                forall|j: int|
                    0 <= j < self@.len() ==> (#[trigger] self@[j]) == (
                        self.entries@[j].0@,
                        self.entries@[j].1@,
                    ),
                out@.len() == i,
                forall|j: int| 0 <= j < i ==> (#[trigger] out@[j])@ == render_line(self@[j]),
            decreases self@.len() - i,
        {
            let mut line = self.entries[i].0.clone();
            proof {
                reveal_strlit("|");
                assert("|"@ =~= seq!['|']);
            }
            line.append("|");
            push_score_text(self.entries[i].1.score(), &mut line);
            proof {
                assert(line@ =~= render_line(self@[i as int]));
            }
            out.push(line);
            i = i + 1;
        }
        proof {
            assert(out.deep_view().len() == out@.len());
            assert forall|j: int|
                0 <= j < out@.len() implies out.deep_view()[j] == render_lines(self@)[j] by {
                assert(out.deep_view()[j] == (#[trigger] out@[j]).deep_view());
            }
            assert(out.deep_view() =~= render_lines(self@));
        }
        out
    }
}

/// A total over scores each at most `u64::MAX` is at most `len` times it.
proof fn lemma_total_bound(s: Seq<(Seq<char>, nat)>)
    requires
        forall|i: int| 0 <= i < s.len() ==> (#[trigger] s[i]).1 <= u64::MAX,
    ensures
        total_score(s) <= s.len() * (u64::MAX as nat),
    decreases s.len(),
{
    if s.len() > 0 {
        lemma_total_bound(s.drop_last());
        assert((s.len() - 1) * (u64::MAX as nat) + (u64::MAX as nat) == s.len() * (
        u64::MAX as nat)) by (nonlinear_arith);
    }
}

/// Entries with pointwise equal keys agree on key facts.
proof fn lemma_same_keys(a: Seq<(Seq<char>, nat)>, b: Seq<(Seq<char>, nat)>)
    requires
        a.len() == b.len(),
        forall|i: int| 0 <= i < a.len() ==> (#[trigger] a[i]).0 == b[i].0,
    ensures
        forall|k: Seq<char>| #[trigger] has_key(a, k) == has_key(b, k),
        distinct_keys(a) == distinct_keys(b),
    decreases a.len(),
{
    if a.len() > 0 {
        assert(forall|i: int|
            0 <= i < a.skip(1).len() ==> (#[trigger] a.skip(1)[i]).0 == b.skip(1)[i].0);
        lemma_same_keys(a.skip(1), b.skip(1));
        assert forall|k: Seq<char>| #[trigger] has_key(a, k) == has_key(b, k) by {
            assert(has_key(a, k) == (a[0].0 == k || has_key(a.skip(1), k)));
            assert(has_key(b, k) == (b[0].0 == k || has_key(b.skip(1), k)));
        }
    }
}

/// One persisted record: `<path>|<score>`.
pub open spec fn render_line(p: (Seq<char>, nat)) -> Seq<char> {
    p.0 + seq!['|'] + score_text(p.1)
}

/// The persisted form of a store: one record per entry, in store order.
pub open spec fn render_lines(s: Seq<(Seq<char>, nat)>) -> Seq<Seq<char>> {
    s.map_values(|p: (Seq<char>, nat)| render_line(p))
}

/// What one persisted line denotes, if anything: the text before the first
/// separator is the path, the text between the first and second separators
/// must read as a score; anything after a second separator is ignored.
pub open spec fn parse_line(line: Seq<char>) -> Option<(Seq<char>, nat)> {
    let ps = split_seq(line, '|');
    if ps.len() >= 2 && score_text_valid(ps[1]) {
        Some((ps[0], score_text_val(ps[1])))
    } else {
        None
    }
}

/// The store denoted by a sequence of lines, folded over `acc`: later
/// records replace earlier ones with the same path, and one malformed
/// line voids the whole load.
pub open spec fn parse_lines(lines: Seq<Seq<char>>, acc: Seq<(Seq<char>, nat)>) -> Option<
    Seq<(Seq<char>, nat)>,
>
    decreases lines.len(),
{
    if lines.len() == 0 {
        Some(acc)
    } else {
        match parse_line(lines[0]) {
            Some(kv) => parse_lines(lines.skip(1), store_put(acc, kv.0, kv.1)),
            None => None,
        }
    }
}

/// Index of the first malformed line, or -1 when every line parses.
pub open spec fn first_bad_line(lines: Seq<Seq<char>>) -> int
    decreases lines.len(),
{
    if lines.len() == 0 {
        -1
    } else if parse_line(lines[0]) is None {
        0
    } else {
        let r = first_bad_line(lines.skip(1));
        if r < 0 {
            -1
        } else {
            r + 1
        }
    }
}

/// A line may not contain a line break.
pub open spec fn line_ok(s: Seq<char>) -> bool {
    forall|j: int| 0 <= j < s.len() ==> s[j] != '\n'
}

proof fn lemma_first_bad_at(lines: Seq<Seq<char>>, i: int)
    requires
        0 <= i < lines.len(),
        parse_line(lines[i]) is None,
        forall|j: int| 0 <= j < i ==> parse_line(#[trigger] lines[j]) is Some,
    ensures
        first_bad_line(lines) == i,
    decreases i,
{
    if i > 0 {
        assert(lines.skip(1)[i - 1] == lines[i]);
        assert(forall|j: int|
            0 <= j < i - 1 ==> parse_line(#[trigger] lines.skip(1)[j]) is Some);
        lemma_first_bad_at(lines.skip(1), i - 1);
    }
}

proof fn lemma_not_has_key(s: Seq<(Seq<char>, nat)>, k: Seq<char>)
    requires
        !has_key(s, k),
    ensures
        forall|i: int| 0 <= i < s.len() ==> (#[trigger] s[i]).0 != k,
    decreases s.len(),
{
    if s.len() > 0 {
        lemma_not_has_key(s.skip(1), k);
        assert forall|i: int| 0 <= i < s.len() implies (#[trigger] s[i]).0 != k by {
            if i > 0 {
                assert(s[i] == s.skip(1)[i - 1]);
                assert(s.skip(1)[i - 1].0 != k);
            }
        }
    }
}

/// Distinct keys, in quantified form.
pub proof fn lemma_distinct_alt(s: Seq<(Seq<char>, nat)>)
    requires
        distinct_keys(s),
    ensures
        forall|i: int, j: int| 0 <= i < j < s.len() ==> s[i].0 != s[j].0,
    decreases s.len(),
{
    if s.len() > 0 {
        lemma_not_has_key(s.skip(1), s[0].0);
        lemma_distinct_alt(s.skip(1));
        assert forall|i: int, j: int| 0 <= i < j < s.len() implies s[i].0 != s[j].0 by {
            if i == 0 {
                assert(s[j] == s.skip(1)[j - 1]);
            } else {
                assert(s[i] == s.skip(1)[i - 1]);
                assert(s[j] == s.skip(1)[j - 1]);
            }
        }
    }
}

/// Parsing the rendering of fresh entries extends the accumulator by
/// exactly those entries.
proof fn lemma_parse_render(s: Seq<(Seq<char>, nat)>, acc: Seq<(Seq<char>, nat)>)
    requires
        forall|i: int, j: int|
            0 <= i < j < acc.len() + s.len() ==> (acc + s)[i].0 != (acc + s)[j].0,
        forall|i: int| 0 <= i < s.len() ==> valid_key((#[trigger] s[i]).0),
        forall|i: int| 0 <= i < s.len() ==> (#[trigger] s[i]).1 <= u64::MAX,
    ensures
        parse_lines(render_lines(s), acc) == Some(acc + s),
    decreases s.len(),
{
    if s.len() == 0 {
        assert(render_lines(s).len() == 0);
        assert(acc + s =~= acc);
    } else {
        let e = s[0];
        let line = render_line(e);
        lemma_score_text_wf(e.1 as u64);
        lemma_split_sep_concat(e.0, score_text(e.1), '|');
        lemma_split_whole(score_text(e.1), '|');
        lemma_score_text_round_trip(e.1 as u64);
        let ps = split_seq(line, '|');
        assert(line == e.0 + seq!['|'] + score_text(e.1));
        assert(ps == seq![e.0] + split_seq(score_text(e.1), '|'));
        assert(ps =~= seq![e.0, score_text(e.1)]);
        assert(parse_line(line) == Some((e.0, e.1)));
        assert forall|j: int| 0 <= j < acc.len() implies acc[j].0 != e.0 by {
            assert((acc + s)[j] == acc[j]);
            assert((acc + s)[acc.len() as int] == e);
        }
        lemma_store_put_absent(acc, e.0, e.1);
        assert(acc.push(e) + s.skip(1) =~= acc + s);
        assert(forall|i: int|
            0 <= i < s.skip(1).len() ==> valid_key((#[trigger] s.skip(1)[i]).0));
        assert(forall|i: int| 0 <= i < s.skip(1).len() ==> (#[trigger] s.skip(1)[i]).1 <= u64::MAX);
        lemma_parse_render(s.skip(1), acc.push(e));
        assert(render_lines(s)[0] == line);
        assert(render_lines(s).skip(1) =~= render_lines(s.skip(1)));
        assert(render_lines(s).len() > 0);
        assert(parse_lines(render_lines(s), acc) == parse_lines(
            render_lines(s).skip(1),
            store_put(acc, e.0, e.1),
        ));
        assert(parse_lines(render_lines(s), acc) == Some(acc + s));
    }
}

/// Law: decay preserves relative order; 99/100 of a smaller score is
/// never larger.
pub proof fn lemma_decay_order(a: nat, b: nat)
    requires
        a <= b,
    ensures
        a * 99 / 100 <= b * 99 / 100,
{
    assert(a * 99 <= b * 99) by (nonlinear_arith)
        requires a <= b;
    vstd::arithmetic::div_mod::lemma_div_is_ordered((a * 99) as int, (b * 99) as int, 100);
}

/// Law: on whole-visit scores (multiples of one visit unit) decay is an
/// exact factor of 99/100, and strict order is preserved.
pub proof fn lemma_decay_exact(a: nat, b: nat)
    requires
        a % 100 == 0,
        b % 100 == 0,
    ensures
        (a * 99 / 100) * 100 == a * 99,
        a < b ==> a * 99 / 100 < b * 99 / 100,
{
    let k = a / 100;
    let m = b / 100;
    vstd::arithmetic::div_mod::lemma_fundamental_div_mod(a as int, 100);
    vstd::arithmetic::div_mod::lemma_fundamental_div_mod(b as int, 100);
    assert(a == 100 * k);
    assert(b == 100 * m);
    assert(a * 99 == (99 * k) * 100) by (nonlinear_arith)
        requires a == 100 * k;
    assert(b * 99 == (99 * m) * 100) by (nonlinear_arith)
        requires b == 100 * m;
    vstd::arithmetic::div_mod::lemma_div_by_multiple((99 * k) as int, 100);
    vstd::arithmetic::div_mod::lemma_div_by_multiple((99 * m) as int, 100);
    assert(a * 99 / 100 == 99 * k);
    assert(b * 99 / 100 == 99 * m);
    if a < b {
        assert(k < m) by (nonlinear_arith)
            requires a == 100 * k, b == 100 * m, a < b;
        assert(99 * k < 99 * m) by (nonlinear_arith)
            requires k < m;
    }
}

/// Law: persist followed by load restores the same mapping. The lines
/// written for any well-formed store parse back to exactly that store.
pub proof fn lemma_store_round_trip(c: &Cache)
    requires
        c.wf(),
    ensures
        parse_lines(render_lines(c@), Seq::<(Seq<char>, nat)>::empty()) == Some(c@),
{
    lemma_distinct_alt(c@);
    c.lemma_scores_fit();
    let empty = Seq::<(Seq<char>, nat)>::empty();
    assert(empty + c@ =~= c@);
    assert(forall|i: int, j: int|
        0 <= i < j < empty.len() + c@.len() ==> (empty + c@)[i].0 != (empty + c@)[j].0);
    lemma_parse_render(c@, empty);
}

} // verus!
