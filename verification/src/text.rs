//! Character-level helpers shared by the parser, the preprocessor and the
//! style code. Text is handled as `Seq<char>` in specifications.

use vstd::prelude::*;

verus! {

/// The characters of a string slice, in order.
pub fn chars_of(s: &str) -> (v: Vec<char>)
    ensures
        v@ == s@,
{
    let mut v: Vec<char> = Vec::new();
    for c in it: s.chars()
        invariant
            v@ == it.seq().take(it.index() as int),
    {
        v.push(c);
    }
    v
}

/// Whether two string slices hold the same characters.
pub(crate) fn str_eq(a: &str, b: &str) -> (r: bool)
    ensures
        r == (a@ == b@),
{
    let x = chars_of(a);
    let y = chars_of(b);
    if x.len() != y.len() {
        return false;
    }
    let mut i: usize = 0;
    while i < x.len()
        invariant
            i <= x@.len() == y@.len(),
            x@ == a@,
            y@ == b@,
            forall|j: int| 0 <= j < i ==> x@[j] == y@[j],
        decreases x@.len() - i,
    {
        if x[i] != y[i] {
            assert(a@[i as int] != b@[i as int]);
            return false;
        }
        i = i + 1;
    }
    assert(x@ =~= y@);
    true
}

/// Appends one character to a string: std's `String::push`, trusted to
/// leave the old characters in place and add `c` after them.
#[verifier::external_body]
pub(crate) fn push_char(s: &mut String, c: char)
    ensures
        final(s)@ == old(s)@.push(c),
{
    s.push(c);
}

/// A string holding the given characters.
pub fn string_from_chars(cs: &[char]) -> (s: String)
    ensures
        s@ == cs@,
{
    let mut s = String::new();
    let mut i: usize = 0;
    while i < cs.len()
        invariant
            i <= cs@.len(),
            s@ == cs@.take(i as int),
        decreases cs@.len() - i,
    {
        push_char(&mut s, cs[i]);
        proof {
            assert(cs@.take(i + 1) == cs@.take(i as int).push(cs@[i as int]));
        }
        i = i + 1;
    }
    proof {
        assert(cs@.take(cs@.len() as int) == cs@);
    }
    s
}

/// A string holding the characters of `cs` from `start` up to `end`.
pub fn string_from_range(cs: &[char], start: usize, end: usize) -> (s: String)
    requires
        start <= end <= cs@.len(),
    ensures
        s@ == cs@.subrange(start as int, end as int),
{
    let mut s = String::new();
    let mut i: usize = start;
    while i < end
        invariant
            start <= i <= end <= cs@.len(),
            s@ == cs@.subrange(start as int, i as int),
        decreases end - i,
    {
        push_char(&mut s, cs[i]);
        proof {
            assert(cs@.subrange(start as int, i + 1) == cs@.subrange(start as int, i as int).push(
                cs@[i as int],
            ));
        }
        i = i + 1;
    }
    s
}

/// A copy of a string slice as an owned string.
pub fn owned(s: &str) -> (r: String)
    ensures
        r@ == s@,
{
    let cs = chars_of(s);
    string_from_chars(cs.as_slice())
}

/// Appends the characters of `t` to `s`.
pub fn push_str(s: &mut String, t: &str)
    ensures
        final(s)@ == old(s)@ + t@,
{
    let cs = chars_of(t);
    let ghost start = s@;
    let mut i: usize = 0;
    while i < cs.len()
        invariant
            i <= cs@.len(),
            cs@ == t@,
            s@ == start + cs@.take(i as int),
        decreases cs@.len() - i,
    {
        push_char(s, cs[i]);
        proof {
            assert(cs@.take(i + 1) == cs@.take(i as int).push(cs@[i as int]));
        }
        i = i + 1;
    }
    proof {
        assert(cs@.take(cs@.len() as int) == cs@);
    }
}

/// The digit character for a value below sixteen (lower-case letters above
/// nine).
pub open spec fn digit_char(d: nat) -> char {
    if d < 10 {
        (48 + d) as char
    } else {
        (87 + d) as char
    }
}

/// Decimal text of a natural number, without leading zeros.
pub open spec fn decimal_text(n: nat) -> Seq<char>
    decreases n,
{
    if n < 10 {
        seq![digit_char(n)]
    } else {
        decimal_text(n / 10).push(digit_char(n % 10))
    }
}

/// The character for a digit value below sixteen.
pub fn digit(d: u8) -> (c: char)
    requires
        d < 16,
    ensures
        c == digit_char(d as nat),
{
    if d < 10 {
        (48u8 + d) as char
    } else {
        (87u8 + d) as char
    }
}

/// Appends the decimal text of `n`.
pub fn push_decimal(s: &mut String, n: u64)
    ensures
        final(s)@ == old(s)@ + decimal_text(n as nat),
    decreases n,
{
    if n >= 10 {
        push_decimal(s, n / 10);
    }
    let d = (n % 10) as u8;
    push_char(s, digit(d));
    proof {
        if n >= 10 {
            assert(old(s)@ + decimal_text(n as nat) == old(s)@ + decimal_text((n / 10) as nat) + seq![digit_char((n % 10) as nat)]);
        } else {
            assert(old(s)@ + decimal_text(n as nat) == old(s)@.push(digit_char(n as nat)));
        }
    }
}

/// Whether `c` is white space in the Unicode sense (as `char::is_whitespace`
/// has it).
pub open spec fn is_space(c: char) -> bool {
    ('\u{9}' <= c && c <= '\u{d}') || c == ' ' || c == '\u{85}' || c == '\u{a0}' || c == '\u{1680}'
        || ('\u{2000}' <= c && c <= '\u{200a}') || c == '\u{2028}' || c == '\u{2029}' || c == '\u{202f}'
        || c == '\u{205f}' || c == '\u{3000}'
}

/// Whether `c` is white space.
pub fn is_space_char(c: char) -> (b: bool)
    ensures
        b == is_space(c),
{
    ('\u{9}' <= c && c <= '\u{d}') || c == ' ' || c == '\u{85}' || c == '\u{a0}' || c == '\u{1680}'
        || ('\u{2000}' <= c && c <= '\u{200a}') || c == '\u{2028}' || c == '\u{2029}' || c == '\u{202f}'
        || c == '\u{205f}' || c == '\u{3000}'
}

/// Number of leading characters of `s` that satisfy `p`.
pub open spec fn lead_len(s: Seq<char>, p: spec_fn(char) -> bool) -> nat
    decreases s.len(),
{
    if s.len() > 0 && p(s[0]) {
        1 + lead_len(s.drop_first(), p)
    } else {
        0
    }
}

/// Number of trailing characters of `s` that satisfy `p`.
pub open spec fn trail_len(s: Seq<char>, p: spec_fn(char) -> bool) -> nat
    decreases s.len(),
{
    if s.len() > 0 && p(s.last()) {
        1 + trail_len(s.drop_last(), p)
    } else {
        0
    }
}

/// `s` without the leading and trailing characters that satisfy `p`.
pub open spec fn strip_both(s: Seq<char>, p: spec_fn(char) -> bool) -> Seq<char> {
    let a = lead_len(s, p);
    let t = s.skip(a as int);
    t.take(t.len() - trail_len(t, p))
}

/// `s` without leading and trailing white space.
pub open spec fn trim_text(s: Seq<char>) -> Seq<char> {
    strip_both(s, |c: char| is_space(c))
}

/// `s` without leading characters that satisfy `p`.
pub open spec fn strip_start(s: Seq<char>, p: spec_fn(char) -> bool) -> Seq<char> {
    s.skip(lead_len(s, p) as int)
}

pub proof fn lemma_lead_len(s: Seq<char>, p: spec_fn(char) -> bool)
    ensures
        lead_len(s, p) <= s.len(),
        forall|i: int| 0 <= i < lead_len(s, p) ==> p(#[trigger] s[i]),
        lead_len(s, p) < s.len() ==> !p(s[lead_len(s, p) as int]),
    decreases s.len(),
{
    if s.len() > 0 && p(s[0]) {
        lemma_lead_len(s.drop_first(), p);
        assert forall|i: int| 0 <= i < lead_len(s, p) implies p(#[trigger] s[i]) by {
            if i > 0 {
                assert(s[i] == s.drop_first()[i - 1]);
            }
        }
    }
}

pub proof fn lemma_lead_len_unique(s: Seq<char>, p: spec_fn(char) -> bool, k: int)
    requires
        0 <= k <= s.len(),
        forall|i: int| 0 <= i < k ==> p(#[trigger] s[i]),
        k < s.len() ==> !p(s[k]),
    ensures
        lead_len(s, p) == k,
    decreases s.len(),
{
    if k > 0 {
        assert(p(s[0]));
        assert forall|i: int| 0 <= i < k - 1 implies p(#[trigger] s.drop_first()[i]) by {
            assert(s.drop_first()[i] == s[i + 1]);
        }
        if k < s.len() {
            assert(s.drop_first()[k - 1] == s[k]);
        }
        lemma_lead_len_unique(s.drop_first(), p, k - 1);
    }
}

pub proof fn lemma_trail_len_unique(s: Seq<char>, p: spec_fn(char) -> bool, k: int)
    requires
        0 <= k <= s.len(),
        forall|i: int| s.len() - k <= i < s.len() ==> p(#[trigger] s[i]),
        k < s.len() ==> !p(s[s.len() - k - 1]),
    ensures
        trail_len(s, p) == k,
    decreases s.len(),
{
    if k > 0 {
        assert(p(s[s.len() - 1]));
        let t = s.drop_last();
        assert forall|i: int| t.len() - (k - 1) <= i < t.len() implies p(#[trigger] t[i]) by {
            assert(t[i] == s[i]);
        }
        if k < s.len() {
            assert(t[t.len() - (k - 1) - 1] == s[s.len() - k - 1]);
        }
        lemma_trail_len_unique(t, p, k - 1);
    }
}

/// The span `[a, b)` of `cs` that remains once the characters satisfying
/// `p` are stripped from both ends.
pub fn trim_bounds(cs: &[char], b0: usize, e0: usize) -> (r: (usize, usize))
    requires
        b0 <= e0 <= cs@.len(),
    ensures
        b0 <= r.0 <= r.1 <= e0,
        cs@.subrange(r.0 as int, r.1 as int) == trim_text(cs@.subrange(b0 as int, e0 as int)),
{
    let ghost s = cs@.subrange(b0 as int, e0 as int);
    let ghost p = |c: char| is_space(c);
    let mut a = b0;
    while a < e0 && is_space_char(cs[a])
        invariant
            b0 <= a <= e0 <= cs@.len(),
            s == cs@.subrange(b0 as int, e0 as int),
            forall|i: int| b0 <= i < a ==> is_space(#[trigger] cs@[i]),
        decreases e0 - a,
    {
        a = a + 1;
    }
    proof {
        assert forall|i: int| 0 <= i < a - b0 implies p(#[trigger] s[i]) by {
            assert(s[i] == cs@[b0 + i]);
        }
        if a < e0 {
            assert(s[a - b0] == cs@[a as int]);
        }
        lemma_lead_len_unique(s, p, a - b0);
    }
    let ghost t = s.skip(a - b0);
    let mut e = e0;
    while e > a && is_space_char(cs[e - 1])
        invariant
            b0 <= a <= e <= e0 <= cs@.len(),
            forall|i: int| e <= i < e0 ==> is_space(#[trigger] cs@[i]),
        decreases e - a,
    {
        e = e - 1;
    }
    proof {
        assert(t == cs@.subrange(a as int, e0 as int));
        assert forall|i: int| t.len() - (e0 - e) <= i < t.len() implies p(#[trigger] t[i]) by {
            assert(t[i] == cs@[a + i]);
        }
        if e > a {
            assert(t[t.len() - (e0 - e) - 1] == cs@[e - 1]);
        }
        lemma_trail_len_unique(t, p, e0 - e);
        assert(t.take(t.len() - (e0 - e)) == cs@.subrange(a as int, e as int));
    }
    (a, e)
}

/// The span of `cs[b0..e0]` that remains once every leading and trailing
/// `c` is stripped.
pub fn strip_char_bounds(cs: &[char], b0: usize, e0: usize, c: char, front: bool, back: bool) -> (r: (usize, usize))
    requires
        b0 <= e0 <= cs@.len(),
    ensures
        b0 <= r.0 <= r.1 <= e0,
        front && back ==> cs@.subrange(r.0 as int, r.1 as int) == strip_both(cs@.subrange(b0 as int, e0 as int), |x: char| x == c),
        front && !back ==> cs@.subrange(r.0 as int, r.1 as int) == strip_start(cs@.subrange(b0 as int, e0 as int), |x: char| x == c),
{
    let ghost s = cs@.subrange(b0 as int, e0 as int);
    let ghost p = |x: char| x == c;
    let mut a = b0;
    if front {
        while a < e0 && cs[a] == c
            invariant
                b0 <= a <= e0 <= cs@.len(),
                forall|i: int| b0 <= i < a ==> #[trigger] cs@[i] == c,
            decreases e0 - a,
        {
            a = a + 1;
        }
        proof {
            assert forall|i: int| 0 <= i < a - b0 implies p(#[trigger] s[i]) by {
                assert(s[i] == cs@[b0 + i]);
            }
            if a < e0 {
                assert(s[a - b0] == cs@[a as int]);
            }
            lemma_lead_len_unique(s, p, a - b0);
            assert(s.skip(a - b0) =~= cs@.subrange(a as int, e0 as int));
        }
    }
    let ghost t = s.skip(a - b0);
    let mut e = e0;
    if back {
        while e > a && cs[e - 1] == c
            invariant
                b0 <= a <= e <= e0 <= cs@.len(),
                forall|i: int| e <= i < e0 ==> #[trigger] cs@[i] == c,
            decreases e - a,
        {
            e = e - 1;
        }
        proof {
            assert(t == cs@.subrange(a as int, e0 as int));
            assert forall|i: int| t.len() - (e0 - e) <= i < t.len() implies p(#[trigger] t[i]) by {
                assert(t[i] == cs@[a + i]);
            }
            if e > a {
                assert(t[t.len() - (e0 - e) - 1] == cs@[e - 1]);
            }
            lemma_trail_len_unique(t, p, e0 - e);
            assert(t.take(t.len() - (e0 - e)) == cs@.subrange(a as int, e as int));
        }
    }
    (a, e)
}

/// A string slice without every leading and trailing `c`.
pub fn trim_matches_char(s: &str, c: char) -> (r: String)
    ensures
        r@ == strip_both(s@, |x: char| x == c),
{
    let cs = chars_of(s);
    let (a, e) = strip_char_bounds(cs.as_slice(), 0, cs.len(), c, true, true);
    proof {
        assert(cs@.subrange(0, cs@.len() as int) == cs@);
    }
    string_from_range(cs.as_slice(), a, e)
}

/// A string slice without every leading `c`, then without leading and
/// trailing white space.
pub fn trim_start_matches_then_trim(s: &str, c: char) -> (r: String)
    ensures
        r@ == trim_text(strip_start(s@, |x: char| x == c)),
{
    let cs = chars_of(s);
    let (a, e) = strip_char_bounds(cs.as_slice(), 0, cs.len(), c, true, false);
    proof {
        assert(cs@.subrange(0, cs@.len() as int) == cs@);
    }
    let (a2, e2) = trim_bounds(cs.as_slice(), a, e);
    string_from_range(cs.as_slice(), a2, e2)
}

/// A string slice without leading and trailing white space.
pub fn trim(s: &str) -> (r: String)
    ensures
        r@ == trim_text(s@),
{
    let cs = chars_of(s);
    let (a, e) = trim_bounds(cs.as_slice(), 0, cs.len());
    proof {
        assert(cs@.subrange(0, cs@.len() as int) == cs@);
    }
    string_from_range(cs.as_slice(), a, e)
}

} // verus!
