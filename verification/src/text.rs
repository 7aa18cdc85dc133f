//! Character-level text helpers: equality, whitespace handling,
//! tokenization, substring search, and integer rendering. Everything is
//! verified against character-sequence views.

use vstd::prelude::*;

verus! {

use vstd::string::StrSliceExecFns;
use vstd::string::StringExecFns;

/// Character equality of two string slices.
pub fn str_eq(a: &str, b: &str) -> (r: bool)
    ensures
        r == (a@ == b@),
{
    let an: usize = a.unicode_len();
    let bn: usize = b.unicode_len();
    if an != bn {
        return false;
    }
    let mut i: usize = 0;
    while i < an
        invariant
            an == a@.len(),
            bn == b@.len(),
            an == bn,
            i <= an,
            forall|k: int| 0 <= k < i ==> a@[k] == b@[k],
        decreases an - i,
    {
        if a.get_char(i) != b.get_char(i) {
            return false;
        }
        i = i + 1;
    }
    proof {
        assert(a@ =~= b@);
    }
    true
}

/// The whitespace characters recognized by the tokenizer.
pub open spec fn is_ws(c: char) -> bool {
    c == ' ' || c == '\t' || c == '\n' || c == '\r'
}

fn is_ws_exec(c: char) -> (r: bool)
    ensures
        r == is_ws(c),
{
    c == ' ' || c == '\t' || c == '\n' || c == '\r'
}

/// A string is blank when every character is whitespace.
pub open spec fn all_ws(s: Seq<char>) -> bool {
    forall|k: int| 0 <= k < s.len() ==> is_ws(#[trigger] s[k])
}

/// Whether the trimmed string is empty.
pub fn is_blank(s: &str) -> (r: bool)
    ensures
        r == all_ws(s@),
{
    let n: usize = s.unicode_len();
    let mut i: usize = 0;
    while i < n
        invariant
            n == s@.len(),
            i <= n,
            forall|k: int| 0 <= k < i ==> is_ws(#[trigger] s@[k]),
        decreases n - i,
    {
        if !is_ws_exec(s.get_char(i)) {
            return false;
        }
        i = i + 1;
    }
    true
}

/// Number of leading non-whitespace characters.
pub open spec fn tok_len(s: Seq<char>) -> nat
    decreases s.len(),
{
    if s.len() == 0 || is_ws(s[0]) {
        0
    } else {
        1 + tok_len(s.drop_first())
    }
}

proof fn lemma_tok_len_le(s: Seq<char>)
    ensures
        tok_len(s) <= s.len(),
    decreases s.len(),
{
    if s.len() > 0 && !is_ws(s[0]) {
        lemma_tok_len_le(s.drop_first());
    }
}

proof fn lemma_tok_len_is(s: Seq<char>, n: int)
    requires
        0 <= n <= s.len(),
        forall|k: int| 0 <= k < n ==> !is_ws(#[trigger] s[k]),
        n < s.len() ==> is_ws(s[n]),
    ensures
        tok_len(s) == n,
    decreases s.len(),
{
    if n == 0 {
    } else {
        let t = s.drop_first();
        assert(forall|k: int| 0 <= k < t.len() ==> (#[trigger] t[k]) == s[k + 1]);
        assert forall|k: int| 0 <= k < n - 1 implies !is_ws(#[trigger] t[k]) by {
            assert(t[k] == s[k + 1]);
        }
        if n - 1 < t.len() {
            assert(t[n - 1] == s[n]);
        }
        lemma_tok_len_is(t, n - 1);
    }
}

/// The whitespace-separated tokens of a string, in order.
pub open spec fn tokens(s: Seq<char>) -> Seq<Seq<char>>
    decreases s.len(),
    when true
    via tokens_decreases
{
    if s.len() == 0 {
        Seq::empty()
    } else if is_ws(s[0]) {
        tokens(s.drop_first())
    } else {
        seq![s.take(tok_len(s) as int)] + tokens(s.skip(tok_len(s) as int))
    }
}

#[via_fn]
proof fn tokens_decreases(s: Seq<char>) {
    if s.len() > 0 && !is_ws(s[0]) {
        lemma_tok_len_le(s);
        assert(tok_len(s) >= 1);
    }
}

/// Split a string at whitespace into its tokens.
pub fn tokenize(s: &str) -> (r: Vec<String>)
    ensures
        r@.map_values(|t: String| t@) == tokens(s@),
{
    let n: usize = s.unicode_len();
    let mut r: Vec<String> = Vec::new();
    let mut i: usize = 0;
    proof {
        assert(s@.skip(0) =~~= s@);
        assert(r@.map_values(|t: String| t@) =~~= Seq::<Seq<char>>::empty());
        assert(tokens(s@) =~~= r@.map_values(|t: String| t@) + tokens(s@.skip(0)));
    }
    while i < n
        invariant
            n == s@.len(),
            i <= n,
            tokens(s@) == r@.map_values(|t: String| t@) + tokens(s@.skip(i as int)),
        decreases n - i,
    {
        let c = s.get_char(i);
        if is_ws_exec(c) {
            proof {
                assert(s@.skip(i as int)[0] == s@[i as int]);
                assert(s@.skip(i as int).drop_first() =~~= s@.skip(i + 1 as int));
            }
            i = i + 1;
        } else {
            let mut j: usize = i + 1;
            while j < n && !is_ws_exec(s.get_char(j))
                invariant
                    n == s@.len(),
                    i < j <= n,
                    forall|k: int| i <= k < j ==> !is_ws(#[trigger] s@[k]),
                decreases n - j,
            {
                j = j + 1;
            }
            let tok: &str = s.substring_char(i, j);
            let ghost rest = s@.skip(i as int);
            proof {
                assert(forall|k: int| 0 <= k < rest.len() ==> (#[trigger] rest[k]) == s@[k + i]);
                assert forall|k: int| 0 <= k < j - i implies !is_ws(#[trigger] rest[k]) by {
                    assert(rest[k] == s@[k + i]);
                }
                if j < n {
                    assert(rest[j - i] == s@[j as int]);
                }
                lemma_tok_len_is(rest, j - i);
                assert(tok@ =~~= rest.take(j - i));
                assert(rest.skip(j - i) =~~= s@.skip(j as int));
            }
            let ghost old_r = r@;
            r.push(tok.to_owned());
            proof {
                assert(r@.map_values(|t: String| t@) =~~= old_r.map_values(|t: String| t@)
                    + seq![rest.take(j - i)]);
                assert(tokens(rest) == seq![rest.take(j - i)] + tokens(s@.skip(j as int)));
                assert(tokens(s@) =~~= r@.map_values(|t: String| t@) + tokens(s@.skip(j as int)));
            }
            i = j;
        }
    }
    proof {
        assert(s@.skip(n as int) =~~= Seq::<char>::empty());
        assert(tokens(Seq::<char>::empty()) =~~= Seq::<Seq<char>>::empty());
        assert(tokens(s@) =~~= r@.map_values(|t: String| t@));
    }
    r
}

/// `pat` occurs contiguously inside `text`.
pub open spec fn contains_sub(text: Seq<char>, pat: Seq<char>) -> bool {
    exists|k: int|
        0 <= k <= text.len() - pat.len() && #[trigger] text.subrange(k, k + pat.len() as int)
            == pat
}

fn match_at(text: &str, pat: &str, k: usize) -> (r: bool)
    requires
        k + pat@.len() <= text@.len(),
        text@.len() <= usize::MAX,
    ensures
        r == (text@.subrange(k as int, k + pat@.len() as int) == pat@),
{
    let pn: usize = pat.unicode_len();
    let mut m: usize = 0;
    while m < pn
        invariant
            pn == pat@.len(),
            k + pn <= text@.len(),
            text@.len() <= usize::MAX,
            m <= pn,
            forall|q: int| 0 <= q < m ==> text@[k + q] == pat@[q],
        decreases pn - m,
    {
        if text.get_char(k + m) != pat.get_char(m) {
            proof {
                let sub = text@.subrange(k as int, k + pn as int);
                assert(sub[m as int] == text@[k + m]);
                assert(sub != pat@);
            }
            return false;
        }
        m = m + 1;
    }
    proof {
        assert(text@.subrange(k as int, k + pn as int) =~~= pat@);
    }
    true
}

/// Substring search by direct scan.
pub fn contains_substring(text: &str, pat: &str) -> (r: bool)
    ensures
        r == contains_sub(text@, pat@),
{
    let tn: usize = text.unicode_len();
    let pn: usize = pat.unicode_len();
    if pn > tn {
        proof {
            assert(!contains_sub(text@, pat@));
        }
        return false;
    }
    if pn == 0 {
        proof {
            assert(text@.subrange(0, 0 + pat@.len() as int) =~~= pat@);
            assert(contains_sub(text@, pat@));
        }
        return true;
    }
    let mut k: usize = 0;
    while k <= tn - pn
        invariant
            tn == text@.len(),
            pn == pat@.len(),
            pn <= tn,
            1 <= pn,
            k <= tn - pn + 1,
            forall|k0: int|
                0 <= k0 < k ==> #[trigger] text@.subrange(k0, k0 + pn as int) != pat@,
        decreases tn + 1 - k,
    {
        if match_at(text, pat, k) {
            return true;
        }
        k = k + 1;
    }
    proof {
        assert forall|k0: int|
            0 <= k0 <= text@.len() - pat@.len() implies #[trigger] text@.subrange(
            k0,
            k0 + pat@.len() as int,
        ) != pat@ by {
            assert(k0 < k);
        }
    }
    false
}

/// The lowercase hexadecimal digit for a value below 16.
pub open spec fn hex_char(d: int) -> char {
    if d == 0 {
        '0'
    } else if d == 1 {
        '1'
    } else if d == 2 {
        '2'
    } else if d == 3 {
        '3'
    } else if d == 4 {
        '4'
    } else if d == 5 {
        '5'
    } else if d == 6 {
        '6'
    } else if d == 7 {
        '7'
    } else if d == 8 {
        '8'
    } else if d == 9 {
        '9'
    } else if d == 10 {
        'a'
    } else if d == 11 {
        'b'
    } else if d == 12 {
        'c'
    } else if d == 13 {
        'd'
    } else if d == 14 {
        'e'
    } else {
        'f'
    }
}

/// The 16 lowercase hex characters of a 64-bit value, most significant
/// nibble first.
pub open spec fn hex16(x: u64) -> Seq<char> {
    Seq::new(16, |i: int| hex_char((x >> ((15 - i) * 4)) as int % 16))
}

fn hex_digit_str(d: u64) -> (r: &'static str)
    requires
        d < 16,
    ensures
        r@.len() == 1,
        r@[0] == hex_char(d as int),
{
    proof {
        reveal_strlit("0");
        reveal_strlit("1");
        reveal_strlit("2");
        reveal_strlit("3");
        reveal_strlit("4");
        reveal_strlit("5");
        reveal_strlit("6");
        reveal_strlit("7");
        reveal_strlit("8");
        reveal_strlit("9");
        reveal_strlit("a");
        reveal_strlit("b");
        reveal_strlit("c");
        reveal_strlit("d");
        reveal_strlit("e");
        reveal_strlit("f");
    }
    if d == 0 {
        "0"
    } else if d == 1 {
        "1"
    } else if d == 2 {
        "2"
    } else if d == 3 {
        "3"
    } else if d == 4 {
        "4"
    } else if d == 5 {
        "5"
    } else if d == 6 {
        "6"
    } else if d == 7 {
        "7"
    } else if d == 8 {
        "8"
    } else if d == 9 {
        "9"
    } else if d == 10 {
        "a"
    } else if d == 11 {
        "b"
    } else if d == 12 {
        "c"
    } else if d == 13 {
        "d"
    } else if d == 14 {
        "e"
    } else {
        "f"
    }
}

/// Render a 64-bit value as 16 lowercase hex characters.
pub fn hex16_string(x: u64) -> (r: String)
    ensures
        r@ == hex16(x),
{
    let mut r = String::new();
    let mut i: usize = 0;
    while i < 16
        invariant
            i <= 16,
            r@.len() == i,
            forall|k: int| 0 <= k < i ==> r@[k] == hex16(x)[k],
        decreases 16 - i,
    {
        let shift: u64 = (15 - i as u64) * 4;
        proof {
            assert(shift <= 60);
            assert((x >> shift) % 16 < 16) by (bit_vector);
        }
        let d: u64 = (x >> shift) % 16;
        let ds = hex_digit_str(d);
        r.append(ds);
        i = i + 1;
    }
    proof {
        assert(r@ =~~= hex16(x));
    }
    r
}

} // verus!
