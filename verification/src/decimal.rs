//! Textual codec for scores.
//!
//! A score is a count of hundredths (two fixed decimal places), rendered as
//! `<integer>.<two digits>` and parsed back from an integer with an optional
//! one- or two-digit fraction. Rendering and parsing are exact inverses,
//! which is what makes the store's persist/load round trip a theorem.

use vstd::prelude::*;
use vstd::string::StrSliceExecFns;
use crate::strings::{split_seq, split_chars, lemma_split_seq_shape, lemma_split_sep_concat, lemma_split_whole};

verus! {

/// How many hundredths one whole score unit holds.
pub const SCORE_UNIT: u64 = 100;

pub open spec fn is_digit(c: char) -> bool {
    48 <= c as u32 <= 57
}

pub open spec fn digit_val(c: char) -> nat {
    (c as u32 - 48) as nat
}

pub open spec fn digit_char(d: int) -> char {
    if d == 0 {
        '0'
    } else if d == 1 {
        '1'
    } else if d == 2 {
        '2'
    } else if d == 3 {
        '3'
    } else if d == 4 {
        '4'
    } else if d == 5 {
        '5'
    } else if d == 6 {
        '6'
    } else if d == 7 {
        '7'
    } else if d == 8 {
        '8'
    } else {
        '9'
    }
}

pub open spec fn all_digits(s: Seq<char>) -> bool {
    forall|i: int| 0 <= i < s.len() ==> is_digit(s[i])
}

/// The number written by a run of decimal digits.
pub open spec fn digits_val(s: Seq<char>) -> nat
    decreases s.len(),
{
    if s.len() == 0 {
        0
    } else {
        digits_val(s.drop_last()) * 10 + (if is_digit(s.last()) {
            digit_val(s.last())
        } else {
            0
        })
    }
}

/// The decimal digits of `n`, most significant first, no leading zeros
/// except for `n == 0` itself.
pub open spec fn dec_digits(n: nat) -> Seq<char>
    decreases n,
{
    if n < 10 {
        seq![digit_char(n as int)]
    } else {
        dec_digits(n / 10).push(digit_char((n % 10) as int))
    }
}

/// The canonical text of a score of `n` hundredths.
pub open spec fn score_text(n: nat) -> Seq<char> {
    dec_digits(n / 100) + seq!['.'] + seq![
        digit_char(((n % 100) / 10) as int),
        digit_char((n % 10) as int),
    ]
}

/// Does `s` have the shape of a score: digits, optionally followed by a
/// point and one or two fraction digits, small enough for a `u64`?
pub open spec fn score_text_valid(s: Seq<char>) -> bool {
    let ps = split_seq(s, '.');
    &&& {
        ||| (ps.len() == 1 && ps[0].len() >= 1 && all_digits(ps[0]))
        ||| (ps.len() == 2 && ps[0].len() >= 1 && all_digits(ps[0]) && 1 <= ps[1].len() <= 2
            && all_digits(ps[1]))
    }
    &&& score_text_val(s) <= u64::MAX
}

/// The score, in hundredths, that `s` denotes.
pub open spec fn score_text_val(s: Seq<char>) -> nat {
    let ps = split_seq(s, '.');
    if ps.len() == 1 {
        digits_val(ps[0]) * 100
    } else {
        let scale: nat = if ps[1].len() == 1 {
            10
        } else {
            1
        };
        digits_val(ps[0]) * 100 + digits_val(ps[1]) * scale
    }
}

proof fn lemma_take_one_more(s: Seq<char>, i: int)
    requires
        0 <= i < s.len(),
    ensures
        s.take(i + 1).drop_last() == s.take(i),
        s.take(i + 1).last() == s[i],
        digits_val(s.take(i + 1)) == digits_val(s.take(i)) * 10 + (if is_digit(s[i]) {
            digit_val(s[i])
        } else {
            0
        }),
{
    assert(s.take(i + 1).drop_last() =~= s.take(i));
}

/// A longer digit prefix never denotes a smaller number.
proof fn lemma_digits_val_prefix(s: Seq<char>, i: int)
    requires
        0 <= i <= s.len(),
    ensures
        digits_val(s.take(i)) <= digits_val(s),
    decreases s.len() - i,
{
    if i == s.len() {
        assert(s.take(i) =~= s);
    } else {
        lemma_take_one_more(s, i);
        lemma_digits_val_prefix(s, i + 1);
    }
}

/// Reads a run of decimal digits as a number; `None` when the run is empty,
/// holds a non-digit, or does not fit in a `u64`.
pub fn digits_to_u64(s: &Vec<char>) -> (r: Option<u64>)
    ensures
        match r {
            Some(v) => s@.len() >= 1 && all_digits(s@) && v as nat == digits_val(s@),
            None => s@.len() == 0 || !all_digits(s@) || digits_val(s@) > u64::MAX,
        },
{
    if s.len() == 0 {
        return None;
    }
    let mut acc: u64 = 0;
    let mut i: usize = 0;
    while i < s.len()
        invariant
            i <= s@.len(),
            all_digits(s@.take(i as int)),
            acc as nat == digits_val(s@.take(i as int)),
        decreases s@.len() - i,
    {
        let c = s[i];
        let u = c as u32;
        proof {
            lemma_take_one_more(s@, i as int);
        }
        if u < 48 || u > 57 {
            assert(!is_digit(s@[i as int]));
            return None;
        }
        let d = (u - 48) as u64;
        if acc > (u64::MAX - d) / 10 {
            proof {
                assert(digits_val(s@.take(i as int + 1)) > u64::MAX);
                lemma_digits_val_prefix(s@, i as int + 1);
            }
            return None;
        }
        acc = acc * 10 + d;
        i = i + 1;
        assert(all_digits(s@.take(i as int)));
    }
    proof {
        assert(s@.take(i as int) =~= s@);
    }
    Some(acc)
}

/// Parses score text into hundredths.
pub fn parse_score(s: &Vec<char>) -> (r: Option<u64>)
    ensures
        match r {
            Some(v) => score_text_valid(s@) && v as nat == score_text_val(s@),
            None => !score_text_valid(s@),
        },
{
    let pieces = split_chars(s, '.');
    proof {
        assert(pieces.deep_view().len() == pieces@.len());
        lemma_split_seq_shape(s@, '.');
        assert(forall|k: int|
            0 <= k < pieces@.len() ==> #[trigger] pieces.deep_view()[k] == pieces@[k].deep_view());
        assert(forall|k: int|
            0 <= k < pieces@.len() ==> #[trigger] pieces@[k].deep_view() =~= pieces@[k]@);
    }
    if pieces.len() == 1 {
        proof {
            assert(pieces@[0]@ == split_seq(s@, '.')[0]);
        }
        let ip = match digits_to_u64(&pieces[0]) {
            Some(v) => v,
            None => {
                proof {
                    let ps = split_seq(s@, '.');
                    if ps[0].len() >= 1 && all_digits(ps[0]) {
                        assert(score_text_val(s@) == digits_val(ps[0]) * 100);
                        assert(digits_val(ps[0]) > u64::MAX);
                        assert(digits_val(ps[0]) * 100 >= digits_val(ps[0])) by (nonlinear_arith);
                    }
                }
                return None;
            },
        };
        if ip > u64::MAX / 100 {
            proof {
                let ps = split_seq(s@, '.');
                assert(score_text_val(s@) == digits_val(ps[0]) * 100);
                assert(ip as nat * 100 > u64::MAX);
            }
            return None;
        }
        Some(ip * 100)
    } else if pieces.len() == 2 {
        proof {
            assert(pieces@[0]@ == split_seq(s@, '.')[0]);
            assert(pieces@[1]@ == split_seq(s@, '.')[1]);
        }
        let ghost ps = split_seq(s@, '.');
        let flen = pieces[1].len();
        if flen == 0 || flen > 2 {
            return None;
        }
        let fp = match digits_to_u64(&pieces[1]) {
            Some(v) => v,
            None => {
                proof {
                    assert(digits_val(ps[1]) <= u64::MAX) by {
                        lemma_digits_val_small(ps[1]);
                    }
                }
                return None;
            },
        };
        let scale: u64 = if flen == 1 {
            10
        } else {
            1
        };
        proof {
            lemma_digits_val_small(ps[1]);
            assert(fp * scale <= 990);
        }
        let frac = fp * scale;
        let ip = match digits_to_u64(&pieces[0]) {
            Some(v) => v,
            None => {
                proof {
                    if ps[0].len() >= 1 && all_digits(ps[0]) {
                        assert(digits_val(ps[0]) > u64::MAX);
                        assert(score_text_val(s@) >= digits_val(ps[0]) * 100);
                        assert(digits_val(ps[0]) * 100 >= digits_val(ps[0])) by (nonlinear_arith);
                    }
                }
                return None;
            },
        };
        if ip > (u64::MAX - frac) / 100 {
            proof {
                assert(ip as nat * 100 + frac > u64::MAX);
            }
            return None;
        }
        Some(ip * 100 + frac)
    } else {
        None
    }
}

/// A run of at most two characters denotes at most 99.
proof fn lemma_digits_val_small(s: Seq<char>)
    requires
        s.len() <= 2,
    ensures
        digits_val(s) <= 99,
{
    if s.len() == 0 {
    } else if s.len() == 1 {
        assert(s.drop_last() =~= Seq::<char>::empty());
        assert(digits_val(s.drop_last()) == 0);
    } else {
        let p = s.drop_last();
        assert(p.len() == 1);
        assert(p.drop_last() =~= Seq::<char>::empty());
        assert(digits_val(p.drop_last()) == 0);
        assert(digits_val(p) <= 9);
    }
}

/// The characters `'0'` through `'9'`, selectable by digit value.
fn digit_str(d: u64) -> (r: &'static str)
    requires
        d < 10,
    ensures
        r@ == seq![digit_char(d as int)],
{
    let digits = "0123456789";
    proof {
        reveal_strlit("0123456789");
    }
    let r = digits.substring_char(d as usize, d as usize + 1);
    proof {
        assert(r@ =~= seq![digits@[d as int]]);
        assert(digits@[d as int] == digit_char(d as int));
    }
    r
}

/// Appends the decimal digits of `n` to `out`.
pub fn push_digits(n: u64, out: &mut String)
    ensures
        final(out)@ == old(out)@ + dec_digits(n as nat),
    decreases n,
{
    if n < 10 {
        out.append(digit_str(n));
    } else {
        push_digits(n / 10, out);
        out.append(digit_str(n % 10));
        proof {
            assert(old(out)@ + dec_digits(n as nat / 10) + seq![digit_char((n % 10) as int)]
                =~= old(out)@ + dec_digits(n as nat));
        }
    }
}

/// Appends the canonical text of a score of `n` hundredths to `out`.
pub fn push_score_text(n: u64, out: &mut String)
    ensures
        final(out)@ == old(out)@ + score_text(n as nat),
{
    push_digits(n / 100, out);
    proof {
        reveal_strlit(".");
    }
    out.append(".");
    out.append(digit_str((n % 100) / 10));
    out.append(digit_str(n % 10));
    proof {
        assert("."@ =~= seq!['.']);
        assert(old(out)@ + dec_digits(n as nat / 100) + seq!['.'] + seq![digit_char(
            ((n % 100) / 10) as int,
        )] + seq![digit_char((n % 10) as int)] =~= old(out)@ + score_text(n as nat));
    }
}

/// Every digit run is free of the decimal point and parses back to itself.
proof fn lemma_dec_digits(n: nat)
    ensures
        dec_digits(n).len() >= 1,
        all_digits(dec_digits(n)),
        digits_val(dec_digits(n)) == n,
        forall|i: int| 0 <= i < dec_digits(n).len() ==> dec_digits(n)[i] != '.',
        forall|i: int| 0 <= i < dec_digits(n).len() ==> dec_digits(n)[i] != '|',
        forall|i: int| 0 <= i < dec_digits(n).len() ==> dec_digits(n)[i] != '\n',
    decreases n,
{
    if n < 10 {
        let s = seq![digit_char(n as int)];
        assert(s.drop_last() =~= Seq::<char>::empty());
        assert(digits_val(Seq::<char>::empty()) == 0);
        assert(digits_val(s) == digit_val(digit_char(n as int)));
        assert(digit_val(digit_char(n as int)) == n);
    } else {
        lemma_dec_digits(n / 10);
        let s = dec_digits(n);
        let p = dec_digits(n / 10);
        assert(s == p.push(digit_char((n % 10) as int)));
        assert(s.drop_last() =~= p);
        assert(s.last() == digit_char((n % 10) as int));
        assert(digits_val(s) == digits_val(p) * 10 + digit_val(digit_char((n % 10) as int)));
        assert(digit_val(digit_char((n % 10) as int)) == n % 10);
        assert((n / 10) * 10 + n % 10 == n);
        assert(forall|i: int| 0 <= i < s.len() ==> is_digit(s[i]));
    }
}



/// Score text consists of digits and one point: never a record separator
/// or a line break.
pub proof fn lemma_score_text_wf(n: u64)
    ensures
        forall|i: int|
            0 <= i < score_text(n as nat).len() ==> score_text(n as nat)[i] != '|' && score_text(
                n as nat,
            )[i] != '\n',
{
    let t = score_text(n as nat);
    let dd = dec_digits(n as nat / 100);
    lemma_dec_digits(n as nat / 100);
    assert forall|i: int| 0 <= i < t.len() implies t[i] != '|' && t[i] != '\n' by {
        if i < dd.len() {
            assert(t[i] == dd[i]);
        } else if i == dd.len() {
            assert(t[i] == '.');
        } else if i == dd.len() + 1 {
            assert(t[i] == digit_char(((n % 100) / 10) as int));
        } else {
            assert(t[i] == digit_char((n % 10) as int));
        }
    }
}

/// The codec round trip: the canonical text of any score parses back to
/// exactly that score.
pub proof fn lemma_score_text_round_trip(n: u64)
    ensures
        score_text_valid(score_text(n as nat)),
        score_text_val(score_text(n as nat)) == n as nat,
{
    let q = n as nat / 100;
    let f = n as nat % 100;
    let ip = dec_digits(q);
    let fp = seq![digit_char((f / 10) as int), digit_char((n % 10) as int)];
    lemma_dec_digits(q);
    assert(score_text(n as nat) =~= ip + seq!['.'] + fp);
    lemma_split_sep_concat(ip, fp, '.');
    lemma_split_whole(fp, '.');
    let ps = split_seq(score_text(n as nat), '.');
    assert(ps == seq![ip] + split_seq(fp, '.'));
    assert(ps =~= seq![ip, fp]);
    assert(ps.len() == 2);
    assert(ps[0] == ip && ps[1] == fp);
    assert(all_digits(fp));
    assert(fp.drop_last() =~= seq![digit_char((f / 10) as int)]);
    assert(fp.drop_last().drop_last() =~= Seq::<char>::empty());
    assert(digits_val(Seq::<char>::empty()) == 0);
    assert(digits_val(seq![digit_char((f / 10) as int)]) == digit_val(
        digit_char((f / 10) as int),
    ));
    assert(digits_val(fp) == digit_val(digit_char((f / 10) as int)) * 10 + digit_val(
        digit_char((n % 10) as int),
    ));
    assert(n as nat % 10 == f % 10);
    assert(digits_val(fp) == (f / 10) * 10 + f % 10);
    assert(digits_val(fp) == f);
    assert(score_text_val(score_text(n as nat)) == q * 100 + f);
    assert(q * 100 + f == n as nat);
}

} // verus!
