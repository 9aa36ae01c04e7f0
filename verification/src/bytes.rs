//! Byte-string utilities shared by the scanner, the argument decoder and the
//! handlers: whitespace trimming, substring search and numeric parsing, each
//! with an exact specification.

use vstd::prelude::*;

verus! {

/// ASCII whitespace, the characters removed by trimming.
pub open spec fn is_ws_byte(b: u8) -> bool {
    b == 32 || (9 <= b && b <= 13)
}

/// Trimming removes leading and trailing whitespace bytes.
pub open spec fn trim_spec(s: Seq<u8>) -> Seq<u8>
    decreases s.len(),
{
    if s.len() == 0 {
        s
    } else if is_ws_byte(s[0]) {
        trim_spec(s.drop_first())
    } else if is_ws_byte(s.last()) {
        trim_spec(s.drop_last())
    } else {
        s
    }
}

proof fn lemma_trim_range(s: Seq<u8>, a: int, b: int)
    requires
        0 <= a <= b <= s.len(),
        forall|k: int| 0 <= k < a ==> is_ws_byte(#[trigger] s[k]),
        forall|k: int| b <= k < s.len() ==> is_ws_byte(#[trigger] s[k]),
        a < b ==> !is_ws_byte(s[a]) && !is_ws_byte(s[b - 1]),
    ensures
        trim_spec(s) == s.subrange(a, b),
    decreases s.len(),
{
    if s.len() == 0 {
        assert(trim_spec(s) =~= s.subrange(a, b));
    } else if is_ws_byte(s[0]) {
        let t = s.drop_first();
        if a >= 1 {
            assert(forall|k: int| 0 <= k < a - 1 ==> is_ws_byte(#[trigger] t[k]));
            assert(forall|k: int| b - 1 <= k < t.len() ==> is_ws_byte(#[trigger] t[k]));
            lemma_trim_range(t, a - 1, b - 1);
            assert(t.subrange(a - 1, b - 1) =~= s.subrange(a, b));
        } else {
            assert(a == 0 && b == 0);
            assert(forall|k: int| 0 <= k < t.len() ==> is_ws_byte(#[trigger] t[k]));
            lemma_trim_range(t, 0, 0);
            assert(t.subrange(0, 0) =~= s.subrange(0, 0));
        }
    } else if is_ws_byte(s.last()) {
        assert(b <= s.len() - 1);
        let t = s.drop_last();
        assert(forall|k: int| 0 <= k < a ==> is_ws_byte(#[trigger] t[k]));
        assert(forall|k: int| b <= k < t.len() ==> is_ws_byte(#[trigger] t[k]));
        lemma_trim_range(t, a, b);
        assert(t.subrange(a, b) =~= s.subrange(a, b));
    } else {
        assert(a == 0);
        assert(b == s.len());
        assert(trim_spec(s) =~= s.subrange(a, b));
    }
}

/// Copy `s[from..to]` into a fresh vector.
pub fn sub_bytes(s: &[u8], from: usize, to: usize) -> (r: Vec<u8>)
    requires
        from <= to <= s@.len(),
    ensures
        r@ == s@.subrange(from as int, to as int),
{
    let mut r: Vec<u8> = Vec::new();
    let mut k: usize = from;
    while k < to
        invariant
            from <= k <= to <= s@.len(),
            r@ == s@.subrange(from as int, k as int),
        decreases to - k,
    {
        r.push(s[k]);
        assert(r@ =~= s@.subrange(from as int, k + 1));
        k = k + 1;
    }
    r
}

fn is_ws(b: u8) -> (r: bool)
    ensures
        r == is_ws_byte(b),
{
    b == 32 || (9 <= b && b <= 13)
}

/// Remove leading and trailing ASCII whitespace from `s[from..to]`.
pub fn trim_range(s: &[u8], from: usize, to: usize) -> (r: Vec<u8>)
    requires
        from <= to <= s@.len(),
    ensures
        r@ == trim_spec(s@.subrange(from as int, to as int)),
{
    let ghost sub = s@.subrange(from as int, to as int);
    let mut a: usize = from;
    while a < to && is_ws(s[a])
        invariant
            from <= a <= to <= s@.len(),
            forall|k: int| from <= k < a ==> is_ws_byte(#[trigger] s@[k]),
        decreases to - a,
    {
        a = a + 1;
    }
    let mut b: usize = to;
    while b > a && is_ws(s[b - 1])
        invariant
            from <= a <= b <= to <= s@.len(),
            forall|k: int| b <= k < to ==> is_ws_byte(#[trigger] s@[k]),
        decreases b,
    {
        b = b - 1;
    }
    proof {
        assert(forall|k: int| 0 <= k < a - from ==> is_ws_byte(#[trigger] sub[k]));
        assert(forall|k: int| b - from <= k < sub.len() ==> is_ws_byte(#[trigger] sub[k]));
        lemma_trim_range(sub, a - from, b - from);
    }
    let r = sub_bytes(s, a, b);
    assert(s@.subrange(a as int, b as int) =~= sub.subrange(a - from, b - from));
    r
}

/// Remove leading and trailing ASCII whitespace.
pub fn trim_bytes(s: &[u8]) -> (r: Vec<u8>)
    ensures
        r@ == trim_spec(s@),
{
    let r = trim_range(s, 0, s.len());
    assert(s@.subrange(0, s@.len() as int) =~= s@);
    r
}

/// Whether `pat` occurs in `s` starting exactly at `at`.
pub open spec fn occurs_at(s: Seq<u8>, pat: Seq<u8>, at: int) -> bool {
    0 <= at && at + pat.len() <= s.len() && s.subrange(at, at + pat.len()) == pat
}

/// Test whether `pat` occurs in `s` starting at `at`.
pub fn matches_at(s: &[u8], at: usize, pat: &[u8]) -> (r: bool)
    requires
        at <= s@.len(),
    ensures
        r == occurs_at(s@, pat@, at as int),
{
    if s.len() - at < pat.len() {
        return false;
    }
    let mut k: usize = 0;
    while k < pat.len()
        invariant
            at + pat@.len() <= s@.len() <= usize::MAX,
            0 <= k <= pat@.len(),
            forall|m: int| 0 <= m < k ==> s@[at + m] == #[trigger] pat@[m],
        decreases pat@.len() - k,
    {
        if s[at + k] != pat[k] {
            assert(s@.subrange(at as int, at + pat@.len())[k as int] != pat@[k as int]);
            return false;
        }
        k = k + 1;
    }
    assert(s@.subrange(at as int, at + pat@.len()) =~= pat@);
    true
}

/// The first position at or after `from` where `pat` occurs in `s`, if any.
pub open spec fn find_spec(s: Seq<u8>, pat: Seq<u8>, from: int) -> Option<int>
    decreases s.len() - from + 1,
{
    if from > s.len() {
        None
    } else if occurs_at(s, pat, from) {
        Some(from)
    } else {
        find_spec(s, pat, from + 1)
    }
}

/// What a successful search means: the position holds the pattern, no
/// earlier position at or after `from` does.
pub proof fn lemma_find_spec_some(s: Seq<u8>, pat: Seq<u8>, from: int, at: int)
    requires
        find_spec(s, pat, from) == Some(at),
    ensures
        from <= at,
        at + pat.len() <= s.len(),
        occurs_at(s, pat, at),
        forall|m: int| from <= m < at ==> !occurs_at(s, pat, m),
    decreases s.len() - from + 1,
{
    if from > s.len() {
    } else if occurs_at(s, pat, from) {
    } else {
        lemma_find_spec_some(s, pat, from + 1, at);
    }
}

/// Search for the first occurrence of `pat` in `s` at or after `from`.
pub fn find_from(s: &[u8], from: usize, pat: &[u8]) -> (r: Option<usize>)
    requires
        from <= s@.len(),
    ensures
        match r {
            Some(at) => find_spec(s@, pat@, from as int) == Some(at as int),
            None => find_spec(s@, pat@, from as int) is None,
        },
{
    let mut at: usize = from;
    loop
        invariant
            from <= at <= s@.len(),
            find_spec(s@, pat@, from as int) == find_spec(s@, pat@, at as int),
        decreases s@.len() - at,
    {
        if matches_at(s, at, pat) {
            return Some(at);
        }
        if at == s.len() {
            proof {
                assert(find_spec(s@, pat@, at + 1) is None);
            }
            return None;
        }
        at = at + 1;
    }
}

/// An ASCII decimal digit.
pub open spec fn is_digit(b: u8) -> bool {
    48 <= b && b <= 57
}

/// The integer denoted by a sequence of decimal digits (most significant first).
pub open spec fn digits_value(s: Seq<u8>) -> int
    decreases s.len(),
{
    if s.len() == 0 {
        0
    } else {
        digits_value(s.drop_last()) * 10 + (s.last() - 48)
    }
}

/// The digit part of a numeric argument name: an optional leading plus sign
/// is dropped.
pub open spec fn numeric_digits(s: Seq<u8>) -> Seq<u8> {
    if s.len() > 0 && s[0] == 43 {
        s.drop_first()
    } else {
        s
    }
}

/// Whether `s` is what an explicit numeric argument name may hold: an optional
/// leading plus sign followed by one or more decimal digits.
pub open spec fn is_numeric_name(s: Seq<u8>) -> bool {
    numeric_digits(s).len() > 0 && forall|k: int|
        0 <= k < numeric_digits(s).len() ==> is_digit(#[trigger] numeric_digits(s)[k])
}

/// The value of a numeric argument name (its digits read base 10).
pub open spec fn numeric_name_value(s: Seq<u8>) -> int {
    digits_value(numeric_digits(s))
}

proof fn lemma_digits_value_nonneg(s: Seq<u8>)
    requires
        forall|k: int| 0 <= k < s.len() ==> is_digit(#[trigger] s[k]),
    ensures
        digits_value(s) >= 0,
    decreases s.len(),
{
    if s.len() > 0 {
        lemma_digits_value_nonneg(s.drop_last());
    }
}

/// Parse a sequence of digits (with optional leading `+`) as a number, as the
/// decoder reads explicit numeric argument names. Returns `None` where the
/// text is not numeric or its value does not fit in `usize`.
pub fn parse_index(s: &[u8]) -> (r: Option<usize>)
    ensures
        match r {
            Some(n) => is_numeric_name(s@) && n == numeric_name_value(s@),
            None => !is_numeric_name(s@) || numeric_name_value(s@) > usize::MAX,
        },
{
    let start: usize = if s.len() > 0 && s[0] == 43 {
        1
    } else {
        0
    };
    let ghost digits = numeric_digits(s@);
    if s.len() == start {
        return None;
    }
    let mut acc: usize = 0;
    let mut k: usize = start;
    while k < s.len()
        invariant
            start <= k <= s@.len(),
            start == 1 ==> s@.len() > 0 && s@[0] == 43,
            start == 0 ==> !(s@.len() > 0 && s@[0] == 43),
            digits == numeric_digits(s@),
            digits == s@.subrange(start as int, s@.len() as int),
            forall|m: int| start <= m < k ==> is_digit(#[trigger] s@[m]),
            acc == digits_value(s@.subrange(start as int, k as int)),
        decreases s@.len() - k,
    {
        let b = s[k];
        if b < 48 || b > 57 {
            proof {
                assert(digits[k - start] == s@[k as int]);
                assert(!is_digit(digits[k - start]));
                assert(!is_numeric_name(s@));
            }
            return None;
        }
        let d = (b - 48) as usize;
        let limit = (usize::MAX - d) / 10;
        proof {
            let m = (usize::MAX - d) as int;
            vstd::arithmetic::div_mod::lemma_fundamental_div_mod(m, 10);
            vstd::arithmetic::div_mod::lemma_mod_bound(m, 10);
            assert(10 * (m / 10) <= m);
        }
        if acc > limit {
            proof {
                if is_numeric_name(s@) {
                    let full = s@.subrange(start as int, k + 1);
                    let part = s@.subrange(start as int, k as int);
                    assert(full.drop_last() =~= part);
                    assert(digits_value(full) == acc * 10 + d);
                    lemma_digits_prefix_le(digits, (k + 1 - start) as int);
                    assert(digits.subrange(0, k + 1 - start) =~= full);
                }
            }
            return None;
        }
        proof {
            let full = s@.subrange(start as int, k + 1);
            let part = s@.subrange(start as int, k as int);
            assert(full.drop_last() =~= part);
        }
        acc = acc * 10 + d;
        k = k + 1;
    }
    proof {
        assert(s@.subrange(start as int, s@.len() as int) =~= digits);
        assert(forall|m: int| 0 <= m < digits.len() ==> is_digit(#[trigger] digits[m]));
    }
    Some(acc)
}

proof fn lemma_digits_prefix_le(s: Seq<u8>, n: int)
    requires
        0 <= n <= s.len(),
        forall|k: int| 0 <= k < s.len() ==> is_digit(#[trigger] s[k]),
    ensures
        digits_value(s.subrange(0, n)) <= digits_value(s),
    decreases s.len() - n,
{
    if n < s.len() {
        lemma_digits_prefix_le(s, n + 1);
        let shorter = s.subrange(0, n);
        let longer = s.subrange(0, n + 1);
        assert(longer.drop_last() =~= shorter);
        lemma_digits_value_nonneg(shorter);
        assert(digits_value(longer) == digits_value(shorter) * 10 + (longer.last() - 48));
        assert(digits_value(shorter) * 10 >= digits_value(shorter)) by (nonlinear_arith)
            requires digits_value(shorter) >= 0;
    } else {
        assert(s.subrange(0, n) =~= s);
    }
}

/// A word-constituent byte: an ASCII letter, digit or underscore.
pub open spec fn is_word_byte(b: u8) -> bool {
    (48 <= b && b <= 57) || (65 <= b && b <= 90) || (97 <= b && b <= 122) || b == 95
}

/// `w` occurs in `s` at `at` as a whole word: nothing word-constituent
/// borders it on either side.
pub open spec fn word_at(s: Seq<u8>, w: Seq<u8>, at: int) -> bool {
    &&& occurs_at(s, w, at)
    &&& (at == 0 || !is_word_byte(s[at - 1]))
    &&& (at + w.len() == s.len() || !is_word_byte(s[at + w.len()]))
}

/// `w` occurs somewhere in `s` as a whole word.
pub open spec fn has_word(s: Seq<u8>, w: Seq<u8>) -> bool {
    exists|at: int| word_at(s, w, at)
}

fn word_byte(b: u8) -> (r: bool)
    ensures
        r == is_word_byte(b),
{
    (48 <= b && b <= 57) || (65 <= b && b <= 90) || (97 <= b && b <= 122) || b == 95
}

/// Search `s` for a whole-word occurrence of `w`.
pub fn contains_word(s: &[u8], w: &[u8]) -> (r: bool)
    ensures
        r == has_word(s@, w@),
{
    let mut at: usize = 0;
    loop
        invariant
            0 <= at <= s@.len(),
            w@.len() == w.len(),
            forall|m: int| m < at ==> !word_at(s@, w@, m),
        decreases s@.len() - at,
    {
        if matches_at(s, at, w) {
            let left_ok = at == 0 || !word_byte(s[at - 1]);
            let right_ok = at + w.len() == s.len() || !word_byte(s[at + w.len()]);
            if left_ok && right_ok {
                proof {
                    assert(word_at(s@, w@, at as int));
                }
                return true;
            }
        }
        if at == s.len() {
            proof {
                assert forall|m: int| !word_at(s@, w@, m) by {
                    if m >= at + 1 {
                        assert(!occurs_at(s@, w@, m));
                    }
                }
            }
            return false;
        }
        at = at + 1;
    }
}

/// Compare two byte strings for equality.
pub fn bytes_eq(a: &[u8], b: &[u8]) -> (r: bool)
    ensures
        r == (a@ == b@),
{
    if a.len() != b.len() {
        proof {
            assert(a@.len() != b@.len());
        }
        return false;
    }
    let mut k: usize = 0;
    while k < a.len()
        invariant
            a@.len() == b@.len(),
            0 <= k <= a@.len(),
            forall|m: int| 0 <= m < k ==> a@[m] == #[trigger] b@[m],
        decreases a@.len() - k,
    {
        if a[k] != b[k] {
            return false;
        }
        k = k + 1;
    }
    proof {
        assert(a@ =~= b@);
    }
    true
}

} // verus!