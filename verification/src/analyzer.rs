//! Text analysis: turns raw text into normalized index terms.
//!
//! A term character is an ASCII letter or digit; every other character is a
//! separator.  Terms are lower-cased (ASCII case folding).  The same analyzer
//! runs at index time and at query time, so term matching is symmetric.

use vstd::prelude::*;

verus! {

/// A character that belongs to a term: an ASCII letter or digit.
pub open spec fn is_word_char(c: char) -> bool {
    let u = c as u32;
    (97 <= u && u <= 122) || (65 <= u && u <= 90) || (48 <= u && u <= 57)
}

/// ASCII case folding: upper-case ASCII letters map to lower-case,
/// everything else is unchanged.
pub open spec fn norm_char(c: char) -> char {
    let u = c as u32;
    if 65 <= u && u <= 90 {
        ((u + 32) as u32) as char
    } else {
        c
    }
}

/// The tokens of `s`, given that the characters of an unfinished token
/// `cur` have already been read.
pub open spec fn tokens_acc(s: Seq<char>, cur: Seq<char>) -> Seq<Seq<char>>
    decreases s.len(),
{
    if s.len() == 0 {
        if cur.len() == 0 {
            Seq::<Seq<char>>::empty()
        } else {
            seq![cur]
        }
    } else if is_word_char(s[0]) {
        tokens_acc(s.skip(1), cur.push(norm_char(s[0])))
    } else if cur.len() == 0 {
        tokens_acc(s.skip(1), Seq::<char>::empty())
    } else {
        seq![cur] + tokens_acc(s.skip(1), Seq::<char>::empty())
    }
}

/// The sequence of normalized terms of `s`: maximal runs of term characters,
/// lower-cased, in order of appearance.
pub open spec fn spec_tokens(s: Seq<char>) -> Seq<Seq<char>> {
    tokens_acc(s, Seq::<char>::empty())
}

/// How many of the tokens `toks` equal `term`.
pub open spec fn term_count(toks: Seq<Seq<char>>, term: Seq<char>) -> nat
    decreases toks.len(),
{
    if toks.len() == 0 {
        0
    } else {
        term_count(toks.drop_last(), term) + (if toks.last() == term {
            1nat
        } else {
            0nat
        })
    }
}

/// Relies on `char::from_u32` of std: it returns `Some` exactly on Unicode
/// scalar values, and the returned character has the given code point.
pub assume_specification[ char::from_u32 ](i: u32) -> (r: Option<char>)
    ensures
        r is Some <==> vstd::utf8::is_scalar(i),
        r matches Some(c) ==> c as u32 == i,
;

/// Lower-cases one character (ASCII case folding).
pub fn normalize_char(c: char) -> (r: char)
    ensures
        r == norm_char(c),
{
    let u: u32 = c as u32;
    if 65 <= u && u <= 90 {
        match char::from_u32(u + 32) {
            Some(l) => {
                proof {
                    vstd::utf8::char_u32_cast(l, (u + 32) as u32);
                }
                l
            },
            None => {
                proof {
                    assert(false);
                }
                c
            },
        }
    } else {
        c
    }
}

/// Whether `c` may appear inside a term.
pub fn word_char(c: char) -> (r: bool)
    ensures
        r == is_word_char(c),
{
    let u: u32 = c as u32;
    (97 <= u && u <= 122) || (65 <= u && u <= 90) || (48 <= u && u <= 57)
}

/// Splits `text` into normalized terms: maximal runs of ASCII letters and
/// digits, lower-cased, in order of appearance.
pub fn tokenize(text: &str) -> (r: Vec<Vec<char>>)
    ensures
        r.deep_view() == spec_tokens(text@),
{
    let n: usize = text.unicode_len();
    let mut out: Vec<Vec<char>> = Vec::new();
    let mut cur: Vec<char> = Vec::new();
    let mut i: usize = 0;
    proof {
        assert(text@.skip(0) =~= text@);
        assert(out.deep_view() =~= Seq::<Seq<char>>::empty());
        assert(out.deep_view() + tokens_acc(text@, cur@) =~= tokens_acc(text@, cur@));
    }
    while i < n
        invariant
            i <= n,
            n == text@.len(),
            spec_tokens(text@) == out.deep_view() + tokens_acc(text@.skip(i as int), cur@),
        decreases n - i,
    {
        let ghost prev_out = out.deep_view();
        let ghost prev_cur = cur@;
        let ghost s_i = text@.skip(i as int);
        let ghost s_next = text@.skip(i as int + 1);
        let c = text.get_char(i);
        proof {
            assert(s_i[0] == c);
            assert(s_i.skip(1) =~= s_next);
        }
        if word_char(c) {
            cur.push(normalize_char(c));
            proof {
                assert(tokens_acc(s_i, prev_cur) == tokens_acc(s_next, cur@));
            }
        } else {
            if cur.len() > 0 {
                proof {
                    assert(tokens_acc(s_i, prev_cur) == seq![prev_cur] + tokens_acc(
                        s_next,
                        Seq::<char>::empty(),
                    ));
                }
                out.push(cur);
                cur = Vec::new();
                proof {
                    assert(out.deep_view() =~~= prev_out.push(prev_cur));
                    assert(prev_out.push(prev_cur) + tokens_acc(s_next, cur@) =~= prev_out + (
                    seq![prev_cur] + tokens_acc(s_next, cur@)));
                }
            } else {
                proof {
                    assert(cur@ =~= Seq::<char>::empty());
                    assert(tokens_acc(s_i, prev_cur) == tokens_acc(s_next, cur@));
                }
            }
        }
        i += 1;
    }
    proof {
        assert(text@.skip(n as int) =~= Seq::<char>::empty());
    }
    if cur.len() > 0 {
        let ghost prev_out = out.deep_view();
        let ghost prev_cur = cur@;
        proof {
            assert(tokens_acc(Seq::<char>::empty(), prev_cur) == seq![prev_cur]);
        }
        out.push(cur);
        proof {
            assert(out.deep_view() =~~= prev_out.push(prev_cur));
            assert(prev_out.push(prev_cur) =~= prev_out + seq![prev_cur]);
        }
    } else {
        proof {
            assert(tokens_acc(Seq::<char>::empty(), cur@) == Seq::<Seq<char>>::empty());
            assert(out.deep_view() + Seq::<Seq<char>>::empty() =~= out.deep_view());
        }
    }
    out
}

/// Whether two terms are the same sequence of characters.
pub fn term_eq(a: &Vec<char>, b: &Vec<char>) -> (r: bool)
    ensures
        r == (a@ == b@),
{
    if a.len() != b.len() {
        proof {
            assert(a@ != b@);
        }
        return false;
    }
    let mut i: usize = 0;
    while i < a.len()
        invariant
            i <= a.len(),
            a.len() == b.len(),
            forall|k: int| 0 <= k < i ==> a@[k] == b@[k],
        decreases a.len() - i,
    {
        if a[i] != b[i] {
            return false;
        }
        i += 1;
    }
    proof {
        assert(a@ =~= b@);
    }
    true
}

} // verus!
