//! Character-level helpers shared by the cache codec and the scorer.
//!
//! Queries and paths are treated as sequences of characters (never bytes),
//! so every routine here works on `Vec<char>` and is specified against the
//! `Seq<char>` view of the originating string.

use vstd::prelude::*;
use vstd::string::StrSliceExecFns;

verus! {

/// The characters of `s`, in order.
pub fn chars_of(s: &str) -> (r: Vec<char>)
    ensures
        r@ == s@,
{
    let n = s.unicode_len();
    let mut r: Vec<char> = Vec::new();
    let mut i: usize = 0;
    while i < n
        invariant
            n == s@.len(),
            i <= n,
            r@ == s@.take(i as int),
        decreases n - i,
    {
        r.push(s.get_char(i));
        i = i + 1;
        assert(r@ =~= s@.take(i as int));
    }
    assert(s@.take(n as int) =~= s@);
    r
}

/// Character-for-character string equality.
pub fn str_eq(a: &str, b: &str) -> (r: bool)
    ensures
        r == (a@ == b@),
{
    let na = a.unicode_len();
    let nb = b.unicode_len();
    if na != nb {
        return false;
    }
    let mut i: usize = 0;
    while i < na
        invariant
            na == a@.len(),
            na == b@.len(),
            i <= na,
            forall|j: int| 0 <= j < i ==> a@[j] == b@[j],
        decreases na - i,
    {
        if a.get_char(i) != b.get_char(i) {
            return false;
        }
        i = i + 1;
    }
    assert(a@ =~= b@);
    true
}

/// Relies on `core::iter::Iterator::collect` for `String`: collecting
/// characters builds the string of exactly those characters.
#[verifier::external_body]
pub(crate) fn string_from_chars(v: &Vec<char>) -> (r: String)
    ensures
        r@ == v@,
{
    v.iter().collect()
}

/// `s` divided at every occurrence of `sep`; always at least one piece,
/// and no piece contains `sep`.
pub open spec fn split_seq(s: Seq<char>, sep: char) -> Seq<Seq<char>>
    decreases s.len(),
{
    if s.len() == 0 {
        seq![Seq::<char>::empty()]
    } else if s[0] == sep {
        seq![Seq::<char>::empty()] + split_seq(s.skip(1), sep)
    } else {
        let rest = split_seq(s.skip(1), sep);
        seq![seq![s[0]] + rest[0]] + rest.skip(1)
    }
}

/// Total character count over a sequence of pieces.
pub open spec fn total_len(ss: Seq<Seq<char>>) -> nat
    decreases ss.len(),
{
    if ss.len() == 0 {
        0
    } else {
        ss[0].len() + total_len(ss.skip(1))
    }
}

pub proof fn lemma_split_seq_shape(s: Seq<char>, sep: char)
    ensures
        1 <= split_seq(s, sep).len() <= s.len() + 1,
        total_len(split_seq(s, sep)) <= s.len(),
        forall|i: int, j: int|
            0 <= i < split_seq(s, sep).len() && 0 <= j < split_seq(s, sep)[i].len()
                ==> split_seq(s, sep)[i][j] != sep,
    decreases s.len(),
{
    if s.len() == 0 {
        let whole = split_seq(s, sep);
        assert(whole.skip(1) =~= Seq::<Seq<char>>::empty());
        assert(total_len(whole.skip(1)) == 0);
        assert(total_len(whole) == 0);
    } else if s[0] == sep {
        lemma_split_seq_shape(s.skip(1), sep);
        let whole = split_seq(s, sep);
        let rest = split_seq(s.skip(1), sep);
        assert(whole == seq![Seq::<char>::empty()] + rest);
        assert(whole[0].len() == 0);
        assert(whole.skip(1) =~= rest);
        assert(total_len(whole) == whole[0].len() + total_len(whole.skip(1)));
        assert(total_len(whole) == total_len(rest));
    } else {
        lemma_split_seq_shape(s.skip(1), sep);
        let whole = split_seq(s, sep);
        let rest = split_seq(s.skip(1), sep);
        assert(whole[0] == seq![s[0]] + rest[0]);
        assert(whole.skip(1) =~= rest.skip(1));
        assert(total_len(whole) == 1 + rest[0].len() + total_len(rest.skip(1)));
        assert(total_len(rest) == rest[0].len() + total_len(rest.skip(1)));
        assert forall|i: int, j: int|
            0 <= i < whole.len() && 0 <= j < whole[i].len() implies whole[i][j] != sep by {
            if i == 0 {
                if j == 0 {
                    assert(whole[0][0] == s[0]);
                } else {
                    assert(whole[0][j] == rest[0][j - 1]);
                }
            } else {
                assert(whole[i] == rest[i]);
            }
        }
    }
}

/// Every character of every piece occurs in the source string.
pub proof fn lemma_split_chars_origin(s: Seq<char>, sep: char)
    ensures
        forall|i: int, j: int|
            0 <= i < split_seq(s, sep).len() && 0 <= j < split_seq(s, sep)[i].len()
                ==> s.contains(split_seq(s, sep)[i][j]),
    decreases s.len(),
{
    if s.len() == 0 {
    } else {
        lemma_split_chars_origin(s.skip(1), sep);
        let whole = split_seq(s, sep);
        let rest = split_seq(s.skip(1), sep);
        assert forall|i: int, j: int|
            0 <= i < whole.len() && 0 <= j < whole[i].len() implies s.contains(whole[i][j]) by {
            let c = whole[i][j];
            if s[0] == sep {
                assert(whole == seq![Seq::<char>::empty()] + rest);
                if i > 0 {
                    assert(whole[i] == rest[i - 1]);
                    assert(s.skip(1).contains(c));
                    let k = choose|k: int| 0 <= k < s.skip(1).len() && s.skip(1)[k] == c;
                    assert(s[k + 1] == c);
                    assert(s.contains(c));
                }
            } else {
                assert(whole == seq![seq![s[0]] + rest[0]] + rest.skip(1));
                if i == 0 {
                    if j == 0 {
                        assert(c == s[0]);
                        assert(s.contains(c));
                    } else {
                        assert(c == rest[0][j - 1]);
                        assert(s.skip(1).contains(c));
                        let k = choose|k: int| 0 <= k < s.skip(1).len() && s.skip(1)[k] == c;
                        assert(s[k + 1] == c);
                        assert(s.contains(c));
                    }
                } else {
                    assert(whole[i] == rest.skip(1)[i - 1]);
                    assert(whole[i] == rest[i]);
                    assert(s.skip(1).contains(c));
                    let k = choose|k: int| 0 <= k < s.skip(1).len() && s.skip(1)[k] == c;
                    assert(s[k + 1] == c);
                    assert(s.contains(c));
                }
            }
        }
    }
}

/// No sep-free prefix: splitting `a + [sep] + b` cuts exactly at `sep`.
pub proof fn lemma_split_sep_concat(a: Seq<char>, b: Seq<char>, sep: char)
    requires
        forall|i: int| 0 <= i < a.len() ==> a[i] != sep,
    ensures
        split_seq(a + seq![sep] + b, sep) == seq![a] + split_seq(b, sep),
    decreases a.len(),
{
    let s = a + seq![sep] + b;
    if a.len() == 0 {
        assert(s[0] == sep);
        assert(s.skip(1) =~= b);
        assert(split_seq(s, sep) == seq![Seq::<char>::empty()] + split_seq(b, sep));
        assert(Seq::<char>::empty() =~= a);
        assert(split_seq(s, sep) =~= seq![a] + split_seq(b, sep));
    } else {
        assert(s[0] == a[0]);
        assert(s.skip(1) =~= a.skip(1) + seq![sep] + b);
        lemma_split_sep_concat(a.skip(1), b, sep);
        let rest = split_seq(s.skip(1), sep);
        assert(rest == seq![a.skip(1)] + split_seq(b, sep));
        assert(rest[0] == a.skip(1));
        assert(seq![s[0]] + rest[0] =~= a);
        assert(rest.skip(1) =~= split_seq(b, sep));
        assert(split_seq(s, sep) =~= seq![a] + split_seq(b, sep));
    }
}

/// Splitting a string without the separator yields that one piece.
pub proof fn lemma_split_whole(a: Seq<char>, sep: char)
    requires
        forall|i: int| 0 <= i < a.len() ==> a[i] != sep,
    ensures
        split_seq(a, sep) == seq![a],
    decreases a.len(),
{
    if a.len() == 0 {
        assert(split_seq(a, sep) == seq![Seq::<char>::empty()]);
        assert(Seq::<char>::empty() =~= a);
        assert(split_seq(a, sep) =~= seq![a]);
    } else {
        lemma_split_whole(a.skip(1), sep);
        let rest = split_seq(a.skip(1), sep);
        assert(rest[0] == a.skip(1));
        assert(seq![a[0]] + rest[0] =~= a);
        assert(rest.skip(1) =~= Seq::<Seq<char>>::empty());
        assert(split_seq(a, sep) =~= seq![a]);
    }
}

/// One more piece in a prefix adds exactly its length.
pub proof fn lemma_total_len_prefix(ss: Seq<Seq<char>>, i: int)
    requires
        0 <= i < ss.len(),
    ensures
        total_len(ss.take(i + 1)) == total_len(ss.take(i)) + ss[i].len(),
    decreases i,
{
    if i == 0 {
        assert(ss.take(1)[0] == ss[0]);
        assert(ss.take(1).skip(1) =~= Seq::<Seq<char>>::empty());
        assert(ss.take(0) =~= Seq::<Seq<char>>::empty());
        assert(total_len(ss.take(1)) == ss[0].len() + total_len(ss.take(1).skip(1)));
    } else {
        lemma_total_len_prefix(ss.skip(1), i - 1);
        assert(ss.take(i + 1)[0] == ss[0]);
        assert(ss.take(i + 1).skip(1) =~= ss.skip(1).take(i));
        assert(ss.take(i)[0] == ss[0]);
        assert(ss.take(i).skip(1) =~= ss.skip(1).take(i - 1));
        assert(ss.skip(1)[i - 1] == ss[i]);
        assert(total_len(ss.take(i + 1)) == ss[0].len() + total_len(ss.skip(1).take(i)));
        assert(total_len(ss.take(i)) == ss[0].len() + total_len(ss.skip(1).take(i - 1)));
    }
}

/// A prefix never holds more characters than the whole.
pub proof fn lemma_total_len_take(ss: Seq<Seq<char>>, i: int)
    requires
        0 <= i <= ss.len(),
    ensures
        total_len(ss.take(i)) <= total_len(ss),
    decreases ss.len() - i,
{
    if i == ss.len() {
        assert(ss.take(i) =~= ss);
    } else {
        lemma_total_len_prefix(ss, i);
        lemma_total_len_take(ss, i + 1);
    }
}

/// No piece is longer than all pieces together.
pub proof fn lemma_piece_le_total(ss: Seq<Seq<char>>, i: int)
    requires
        0 <= i < ss.len(),
    ensures
        ss[i].len() <= total_len(ss),
    decreases i,
{
    if i == 0 {
    } else {
        lemma_piece_le_total(ss.skip(1), i - 1);
        assert(ss.skip(1)[i - 1] == ss[i]);
    }
}

/// The pieces already emitted, plus the piece under construction glued to
/// whatever `split_seq` yields for the remaining input.
pub open spec fn split_glue(cur: Seq<char>, rest: Seq<Seq<char>>) -> Seq<Seq<char>> {
    seq![cur + rest[0]] + rest.skip(1)
}

/// `s` divided at every occurrence of `sep`, as executable code.
pub fn split_chars(s: &Vec<char>, sep: char) -> (r: Vec<Vec<char>>)
    ensures
        r.deep_view() == split_seq(s@, sep),
{
    let ghost whole = split_seq(s@, sep);
    let mut done: Vec<Vec<char>> = Vec::new();
    let mut cur: Vec<char> = Vec::new();
    let mut i: usize = 0;
    proof {
        assert(s@.skip(0) =~= s@);
        lemma_split_seq_shape(s@, sep);
        assert(done.deep_view() =~= Seq::<Seq<char>>::empty());
        assert(split_glue(cur@, whole)[0] == Seq::<char>::empty() + whole[0]);
        assert(Seq::<char>::empty() + whole[0] =~= whole[0]);
        assert(split_glue(cur@, whole) =~= whole);
        assert(done.deep_view() + split_glue(cur@, whole) =~= whole);
    }
    while i < s.len()
        invariant
            i <= s@.len(),
            whole == split_seq(s@, sep),
            whole =~= done.deep_view() + split_glue(cur@, split_seq(s@.skip(i as int), sep)),
        decreases s@.len() - i,
    {
        let ghost rem = split_seq(s@.skip(i as int), sep);
        let ghost rest = split_seq(s@.skip(i as int + 1), sep);
        proof {
            assert(s@.skip(i as int).len() > 0);
            assert(s@.skip(i as int)[0] == s@[i as int]);
            assert(s@.skip(i as int).skip(1) =~= s@.skip(i as int + 1));
            lemma_split_seq_shape(s@.skip(i as int + 1), sep);
        }
        let c = s[i];
        if c == sep {
            let ghost pre_dv = done.deep_view();
            let ghost curv = cur@;
            proof {
                assert(rem == seq![Seq::<char>::empty()] + rest);
                assert(split_glue(curv, rem)[0] == curv + Seq::<char>::empty());
                assert(curv + Seq::<char>::empty() =~= curv);
                assert(split_glue(curv, rem).skip(1) =~= rest);
                assert(split_glue(curv, rem) =~= seq![curv] + rest);
                assert(split_glue(Seq::<char>::empty(), rest)[0] == Seq::<char>::empty() + rest[0]);
                assert(Seq::<char>::empty() + rest[0] =~= rest[0]);
                assert(split_glue(Seq::<char>::empty(), rest) =~= rest);
                assert(whole =~= pre_dv + (seq![curv] + rest));
                assert(pre_dv + (seq![curv] + rest) =~= (pre_dv + seq![curv]) + rest);
            }
            done.push(cur);
            cur = Vec::new();
            proof {
                assert(done.deep_view() =~~= pre_dv + seq![curv]);
                assert(cur@ =~= Seq::<char>::empty());
                assert(whole =~= done.deep_view() + split_glue(cur@, rest));
            }
        } else {
            proof {
                assert(rem == seq![seq![s@[i as int]] + rest[0]] + rest.skip(1));
                assert(split_glue(cur@, rem)[0] == cur@ + (seq![s@[i as int]] + rest[0]));
                assert(split_glue(cur@, rem).skip(1) =~= rest.skip(1));
                assert(cur@ + (seq![s@[i as int]] + rest[0]) =~= cur@.push(s@[i as int]) + rest[0]);
                assert(split_glue(cur@, rem) =~= split_glue(cur@.push(s@[i as int]), rest));
            }
            cur.push(c);
        }
        i = i + 1;
    }
    let ghost pre_dv = done.deep_view();
    let ghost curv = cur@;
    proof {
        let rem = split_seq(s@.skip(i as int), sep);
        assert(s@.skip(i as int).len() == 0);
        assert(rem == seq![Seq::<char>::empty()]);
        assert(split_glue(curv, rem)[0] == curv + Seq::<char>::empty());
        assert(curv + Seq::<char>::empty() =~= curv);
        assert(split_glue(curv, rem).skip(1) =~= Seq::<Seq<char>>::empty());
        assert(split_glue(curv, rem) =~= seq![curv]);
        assert(whole =~= pre_dv + seq![curv]);
    }
    done.push(cur);
    proof {
        assert(done.deep_view() =~~= pre_dv + seq![curv]);
        assert(done.deep_view() =~= whole);
    }
    done
}

} // verus!
