//! Tokenization and literal classification.
//!
//! The tokenizer splits source text into maximal runs of non-whitespace
//! characters, in source order, dropping all whitespace. The classifier
//! decides whether a token is a note literal (`(^|_)? [1-7] (s|e|q|h|w) .?`)
//! or a numeric literal (one or more decimal digits); the note grammar is
//! tried first, since a bare scale degree such as `1` would otherwise be
//! taken for a number.

use vstd::prelude::*;
use vstd::string::StrSliceExecFns;
use vstd::string::StringExecFns;

verus! {

/// Whitespace characters that separate tokens.
pub open spec fn is_ws(c: char) -> bool {
    c == ' ' || c == '\n' || c == '\t' || c == '\r'
}

/// The token sequence of a source text: maximal runs of non-whitespace
/// characters, in source order.
pub open spec fn spec_tokens(s: Seq<char>) -> Seq<Seq<char>>
    decreases s.len(),
{
    if s.len() == 0 {
        Seq::empty()
    } else {
        let pre = spec_tokens(s.drop_last());
        let c = s.last();
        if is_ws(c) {
            pre
        } else if s.len() >= 2 && !is_ws(s[s.len() - 2]) {
            pre.update(pre.len() - 1, pre.last().push(c))
        } else {
            pre.push(seq![c])
        }
    }
}

/// The views of a vector of owned tokens.
pub open spec fn tokens_view(v: Seq<String>) -> Seq<Seq<char>> {
    v.map_values(|t: String| t@)
}

/// Every token of a tokenized text is a nonempty run of non-whitespace
/// characters.
pub proof fn lemma_spec_tokens_wf(s: Seq<char>)
    ensures
        forall|k: int| 0 <= k < spec_tokens(s).len() ==> (#[trigger] spec_tokens(s)[k]).len() > 0,
        forall|k: int, j: int|
            0 <= k < spec_tokens(s).len() && 0 <= j < spec_tokens(s)[k].len() ==> !is_ws(
                #[trigger] spec_tokens(s)[k][j],
            ),
        s.len() > 0 && !is_ws(s.last()) ==> spec_tokens(s).len() > 0,
    decreases s.len(),
{
    if s.len() > 0 {
        lemma_spec_tokens_wf(s.drop_last());
        let pre = spec_tokens(s.drop_last());
        let c = s.last();
        if is_ws(c) {
        } else if s.len() >= 2 && !is_ws(s[s.len() - 2]) {
            assert(s.drop_last().last() == s[s.len() - 2]);
            assert(pre.len() > 0);
            let r = pre.update(pre.len() - 1, pre.last().push(c));
            assert(forall|k: int| 0 <= k < r.len() - 1 ==> r[k] == pre[k]);
            assert(r[r.len() - 1] == pre.last().push(c));
            assert(forall|k: int| 0 <= k < r.len() ==> (#[trigger] r[k]).len() > 0);
            assert(forall|k: int, j: int|
                0 <= k < r.len() && 0 <= j < r[k].len() ==> !is_ws(#[trigger] r[k][j])) by {
                assert(forall|j: int|
                    0 <= j < pre.last().push(c).len() ==> !is_ws(
                        #[trigger] pre.last().push(c)[j],
                    ));
            }
        } else {
            let r = pre.push(seq![c]);
            assert(r[r.len() - 1] == seq![c]);
            assert(seq![c][0] == c);
            assert(forall|k: int| 0 <= k < r.len() - 1 ==> r[k] == pre[k]);
            assert(forall|k: int, j: int|
                0 <= k < r.len() && 0 <= j < r[k].len() ==> !is_ws(#[trigger] r[k][j]));
        }
    }
}

/// Splits the source text into whitespace-separated tokens: each is
/// nonempty and free of whitespace.
pub fn tokenize(s: &str) -> (r: Vec<String>)
    ensures
        tokens_view(r@) == spec_tokens(s@),
        forall|k: int| 0 <= k < r@.len() ==> (#[trigger] r@[k])@.len() > 0,
{
    proof {
        lemma_spec_tokens_wf(s@);
    }
    let n = s.unicode_len();
    let mut done: Vec<String> = Vec::new();
    let mut start: usize = 0;
    let mut in_token = false;
    let mut i: usize = 0;
    while i < n
        invariant
            n == s@.len(),
            i <= n,
            in_token ==> start < i,
            in_token ==> forall|j: int| start <= j < i ==> !is_ws(s@[j]),
            !in_token ==> spec_tokens(s@.subrange(0, i as int)) == tokens_view(done@),
            in_token ==> spec_tokens(s@.subrange(0, i as int)) == tokens_view(done@).push(
                s@.subrange(start as int, i as int),
            ),
            in_token ==> (start == 0 || is_ws(s@[start as int - 1])),
            !in_token ==> (i == 0 || is_ws(s@[i as int - 1])),
        decreases n - i,
    {
        let c = s.get_char(i);
        proof {
            assert(s@.subrange(0, i + 1).drop_last() =~= s@.subrange(0, i as int));
            assert(s@.subrange(0, i + 1).last() == s@[i as int]);
        }
        if c == ' ' || c == '\n' || c == '\t' || c == '\r' {
            if in_token {
                let tok = s.substring_char(start, i);
                done.push(String::from_str(tok));
                proof {
                    assert(tokens_view(done@) =~= tokens_view(done@.drop_last()).push(
                        s@.subrange(start as int, i as int),
                    ));
                }
                in_token = false;
            }
        } else {
            if in_token {
                proof {
                    assert(s@.subrange(0, i + 1)[i as int - 1] == s@[i as int - 1]);
                    assert(s@.subrange(start as int, i as int).push(s@[i as int]) =~= s@.subrange(
                        start as int,
                        i + 1,
                    ));
                    let pre = spec_tokens(s@.subrange(0, i as int));
                    assert(pre.update(pre.len() - 1, pre.last().push(s@[i as int]))
                        =~= tokens_view(done@).push(s@.subrange(start as int, i + 1)));
                }
            } else {
                start = i;
                in_token = true;
                proof {
                    assert(seq![s@[i as int]] =~= s@.subrange(i as int, i + 1));
                }
            }
        }
        i = i + 1;
    }
    if in_token {
        let tok = s.substring_char(start, n);
        done.push(String::from_str(tok));
        proof {
            assert(tokens_view(done@) =~= tokens_view(done@.drop_last()).push(
                s@.subrange(start as int, n as int),
            ));
        }
    }
    proof {
        assert(s@.subrange(0, n as int) =~= s@);
        assert forall|k: int| 0 <= k < done@.len() implies (#[trigger] done@[k])@.len() > 0 by {
            assert(tokens_view(done@)[k] == done@[k]@);
            assert(spec_tokens(s@)[k].len() > 0);
        }
    }
    done
}

/// A scale degree: the digits `1` through `7`.
pub open spec fn is_note_digit(c: char) -> bool {
    c == '1' || c == '2' || c == '3' || c == '4' || c == '5' || c == '6' || c == '7'
}

/// A duration class: sixteenth, eighth, quarter, half or whole.
pub open spec fn is_duration_char(c: char) -> bool {
    c == 's' || c == 'e' || c == 'q' || c == 'h' || c == 'w'
}

/// A decimal digit.
pub open spec fn is_digit(c: char) -> bool {
    c == '0' || c == '1' || c == '2' || c == '3' || c == '4' || c == '5' || c == '6' || c == '7'
        || c == '8' || c == '9'
}

/// A note literal: an optional octave marker (`^` or `_`), a scale degree
/// `1`-`7`, a duration letter (`s`, `e`, `q`, `h`, `w`), and an optional
/// augmentation dot.
pub open spec fn spec_is_note_literal(t: Seq<char>) -> bool {
    let b = if t.len() > 0 && (t[0] == '^' || t[0] == '_') {
        t.skip(1)
    } else {
        t
    };
    &&& (b.len() == 2 || b.len() == 3)
    &&& is_note_digit(b[0])
    &&& is_duration_char(b[1])
    &&& (b.len() == 3 ==> b[2] == '.')
}

/// A numeric literal: one or more decimal digits.
pub open spec fn spec_is_numeric_literal(t: Seq<char>) -> bool {
    t.len() > 0 && forall|j: int| 0 <= j < t.len() ==> is_digit(#[trigger] t[j])
}

/// Decides whether a token is a note literal.
pub fn is_note_literal(t: &str) -> (r: bool)
    ensures
        r == spec_is_note_literal(t@),
{
    let n = t.unicode_len();
    if n == 0 {
        return false;
    }
    let c0 = t.get_char(0);
    let off: usize = if c0 == '^' || c0 == '_' {
        1
    } else {
        0
    };
    proof {
        if off == 1 {
            assert(forall|j: int| 0 <= j < t@.skip(1).len() ==> t@.skip(1)[j] == t@[j + 1]);
        }
    }
    if !(n == off + 2 || n == off + 3) {
        return false;
    }
    let d = t.get_char(off);
    if !(d == '1' || d == '2' || d == '3' || d == '4' || d == '5' || d == '6' || d == '7') {
        return false;
    }
    let u = t.get_char(off + 1);
    if !(u == 's' || u == 'e' || u == 'q' || u == 'h' || u == 'w') {
        return false;
    }
    if n == off + 3 {
        let dot = t.get_char(off + 2);
        if dot != '.' {
            return false;
        }
    }
    true
}

fn all_digits_from(t: &str, k: usize, n: usize) -> (r: bool)
    requires
        n == t@.len(),
        k <= n,
    ensures
        r == forall|j: int| k <= j < n ==> is_digit(#[trigger] t@[j]),
    decreases n - k,
{
    if k >= n {
        true
    } else {
        let c = t.get_char(k);
        if c == '0' || c == '1' || c == '2' || c == '3' || c == '4' || c == '5' || c == '6'
            || c == '7' || c == '8' || c == '9' {
            all_digits_from(t, k + 1, n)
        } else {
            false
        }
    }
}

/// Decides whether a token is a numeric literal.
pub fn is_numeric_literal(t: &str) -> (r: bool)
    ensures
        r == spec_is_numeric_literal(t@),
{
    let n = t.unicode_len();
    if n == 0 {
        return false;
    }
    all_digits_from(t, 0, n)
}

} // verus!
