//! Which texts read as number and boolean literals.
use vstd::prelude::*;
use vstd::string::StrSliceExecFns;
use crate::tokens::{is_digit, true_word, false_word};

verus! {

/// The first position at or after `j` that does not hold a digit, or the end of `s`.
pub open spec fn digits_end(s: Seq<char>, j: int) -> int
    decreases s.len() - j,
{
    if j >= s.len() || !is_digit(s[j]) {
        j
    } else {
        digits_end(s, j + 1)
    }
}

/// Where the mantissa `Digit+ | Digit+ '.' Digit* | Digit* '.' Digit+` that starts `s` ends,
/// reading digits as far as they go; `None` when `s` does not start with one.
pub open spec fn mantissa_end(s: Seq<char>) -> Option<int> {
    let a = digits_end(s, 0);
    if a < s.len() && s[a] == '.' {
        let b = digits_end(s, a + 1);
        if a > 0 || b > a + 1 {
            Some(b)
        } else {
            None
        }
    } else if a > 0 {
        Some(a)
    } else {
        None
    }
}

/// The exponent `('e' | 'E') Sign? Digit+`, as the whole of `s`.
pub open spec fn is_exponent(s: Seq<char>) -> bool {
    &&& s.len() >= 2
    &&& s[0] == 'e' || s[0] == 'E'
    &&& {
        let d = if s[1] == '+' || s[1] == '-' { 2int } else { 1int };
        d < s.len() && digits_end(s, d) == s.len()
    }
}

/// Whether `c`, read without case, is the lower-case letter `lower`.
pub open spec fn same_letter(c: char, lower: char) -> bool {
    c == lower || c as int == lower as int - 32
}

/// Whether `s`, read without case, is the lower-case word `w`.
pub open spec fn same_word(s: Seq<char>, w: Seq<char>) -> bool {
    s.len() == w.len() && forall|i: int| 0 <= i < s.len() ==> same_letter(#[trigger] s[i], w[i])
}

/// `inf`, `infinity` or `nan`, in any case.
pub open spec fn is_special_float(s: Seq<char>) -> bool {
    same_word(s, seq!['i', 'n', 'f']) || same_word(s, seq!['i', 'n', 'f', 'i', 'n', 'i', 't', 'y'])
        || same_word(s, seq!['n', 'a', 'n'])
}

/// The length of the sign that starts `s`: one for `+` or `-`, else nought.
pub open spec fn sign_len(s: Seq<char>) -> int {
    if s.len() > 0 && (s[0] == '+' || s[0] == '-') {
        1
    } else {
        0
    }
}

/// The texts that `str::parse::<f64>` accepts, as its documentation gives their grammar:
/// `Sign? ( 'inf' | 'infinity' | 'nan' | Number )`, where `Number` is a mantissa followed by an
/// optional exponent, and letters are read without case.
pub open spec fn is_float_literal(s: Seq<char>) -> bool {
    let body = s.skip(sign_len(s));
    ||| is_special_float(body)
    ||| match mantissa_end(body) {
        Some(m) => m == body.len() || is_exponent(body.skip(m)),
        None => false,
    }
}

/// The boolean a text reads as, as `str::parse::<bool>` reads it: only `true` and `false`.
pub open spec fn bool_literal(s: Seq<char>) -> Option<bool> {
    if s == true_word() {
        Some(true)
    } else if s == false_word() {
        Some(false)
    } else {
        None
    }
}

proof fn lemma_digits_end_bounds(s: Seq<char>, j: int)
    requires
        0 <= j <= s.len(),
    ensures
        j <= digits_end(s, j) <= s.len(),
    decreases s.len() - j,
{
    if !(j >= s.len() || !is_digit(s[j])) {
        lemma_digits_end_bounds(s, j + 1);
    }
}

/// The first position at or after `j` in `s` that does not hold a digit.
fn digits_end_exec(s: &str, j: usize) -> (r: usize)
    requires
        j <= s@.len(),
    ensures
        r == digits_end(s@, j as int),
{
    let n = s.unicode_len();
    let mut k = j;
    while k < n && is_digit_exec(s.get_char(k))
        invariant
            n == s@.len(),
            j <= k <= n,
            digits_end(s@, j as int) == digits_end(s@, k as int),
        decreases n - k,
    {
        k = k + 1;
    }
    k
}

fn is_digit_exec(c: char) -> (b: bool)
    ensures
        b == is_digit(c),
{
    '0' <= c && c <= '9'
}

fn same_letter_exec(c: char, lower: char) -> (b: bool)
    requires
        'a' <= lower <= 'z',
    ensures
        b == same_letter(c, lower),
{
    let upper = ((lower as u32) - 32) as u8 as char;
    c == lower || c == upper
}

/// Whether `s` from position `from` on reads, without case, as the word `w`.
fn same_word_from(s: &str, from: usize, w: &str) -> (b: bool)
    requires
        from <= s@.len(),
        forall|i: int| 0 <= i < w@.len() ==> 'a' <= #[trigger] w@[i] <= 'z',
    ensures
        b == same_word(s@.skip(from as int), w@),
{
    let n = s.unicode_len();
    let m = w.unicode_len();
    if n - from != m {
        return false;
    }
    let mut i: usize = 0;
    while i < m
        invariant
            n == s@.len(),
            m == w@.len(),
            n - from == m,
            0 <= i <= m,
            forall|k: int| 0 <= k < i ==> same_letter(#[trigger] s@.skip(from as int)[k], w@[k]),
            forall|i: int| 0 <= i < w@.len() ==> 'a' <= #[trigger] w@[i] <= 'z',
        decreases m - i,
    {
        if !same_letter_exec(s.get_char(from + i), w.get_char(i)) {
            assert(!same_letter(s@.skip(from as int)[i as int], w@[i as int]));
            return false;
        }
        i = i + 1;
    }
    true
}

/// Whether `s` from position `start` on is `inf`, `infinity` or `nan`, in any case.
fn special_from(s: &str, start: usize) -> (b: bool)
    requires
        start <= s@.len(),
    ensures
        b == is_special_float(s@.skip(start as int)),
{
    proof {
        reveal_strlit("inf");
        reveal_strlit("infinity");
        reveal_strlit("nan");
        assert("inf"@ =~= seq!['i', 'n', 'f']);
        assert("infinity"@ =~= seq!['i', 'n', 'f', 'i', 'n', 'i', 't', 'y']);
        assert("nan"@ =~= seq!['n', 'a', 'n']);
    }
    let a = same_word_from(s, start, "inf");
    let b = same_word_from(s, start, "infinity");
    let c = same_word_from(s, start, "nan");
    a || b || c
}

/// Where the mantissa that starts at `start` in `s` ends, as a position in `s`.
fn mantissa_end_from(s: &str, start: usize) -> (r: Option<usize>)
    requires
        start <= s@.len(),
    ensures
        match r {
            Some(m) => mantissa_end(s@.skip(start as int)) == Some(m - start) && start <= m <= s@.len(),
            None => mantissa_end(s@.skip(start as int)) is None,
        },
{
    let n = s.unicode_len();
    let ghost body = s@.skip(start as int);
    let a = digits_end_exec(s, start);
    proof {
        lemma_digits_end_bounds(s@, start as int);
        lemma_digits_end_shift(s@, start as int, start as int);
    }
    if a < n && s.get_char(a) == '.' {
        assert(body[a - start] == s@[a as int]);
        let b = digits_end_exec(s, a + 1);
        proof {
            lemma_digits_end_bounds(s@, a + 1);
            lemma_digits_end_shift(s@, start as int, a + 1);
        }
        if a > start || b > a + 1 {
            Some(b)
        } else {
            None
        }
    } else {
        if a < n {
            assert(body[a - start] == s@[a as int]);
        }
        if a > start {
            Some(a)
        } else {
            None
        }
    }
}

/// Whether `s` from position `e` on is an exponent.
fn exponent_from(s: &str, e: usize) -> (b: bool)
    requires
        e <= s@.len(),
    ensures
        b == is_exponent(s@.skip(e as int)),
{
    let n = s.unicode_len();
    let ghost t = s@.skip(e as int);
    if n - e < 2 {
        return false;
    }
    assert(t[0] == s@[e as int] && t[1] == s@[e + 1]);
    if !(s.get_char(e) == 'e' || s.get_char(e) == 'E') {
        return false;
    }
    let d: usize = if s.get_char(e + 1) == '+' || s.get_char(e + 1) == '-' { e + 2 } else { e + 1 };
    if d >= n {
        return false;
    }
    let end = digits_end_exec(s, d);
    proof {
        lemma_digits_end_shift(s@, e as int, d as int);
    }
    end == n
}

/// Whether `s` reads as a floating-point number.
pub fn parses_as_float(s: &str) -> (b: bool)
    ensures
        b == is_float_literal(s@),
{
    let n = s.unicode_len();
    let start: usize = if n > 0 && (s.get_char(0) == '+' || s.get_char(0) == '-') { 1 } else { 0 };
    assert(start == sign_len(s@));
    if special_from(s, start) {
        return true;
    }
    match mantissa_end_from(s, start) {
        None => false,
        Some(m) => {
            if m == n {
                true
            } else {
                assert(s@.skip(start as int).skip(m - start) =~= s@.skip(m as int));
                exponent_from(s, m)
            }
        },
    }
}

/// Reading digits in a suffix of `s` is reading them in `s` and shifting.
proof fn lemma_digits_end_shift(s: Seq<char>, from: int, j: int)
    requires
        0 <= from <= j <= s.len(),
    ensures
        digits_end(s.skip(from), j - from) == digits_end(s, j) - from,
    decreases s.len() - j,
{
    let t = s.skip(from);
    if j < s.len() {
        assert(t[j - from] == s[j]);
        if is_digit(s[j]) {
            lemma_digits_end_shift(s, from, j + 1);
        }
    }
}

/// What `str::parse::<bool>` gives: `Some` of the boolean for `true` and `false`, else `None`.
pub fn parse_bool(s: &str) -> (r: Option<bool>)
    ensures
        r == bool_literal(s@),
{
    let n = s.unicode_len();
    if n == 4 && s.get_char(0) == 't' && s.get_char(1) == 'r' && s.get_char(2) == 'u' && s.get_char(3) == 'e' {
        assert(s@ =~= true_word());
        Some(true)
    } else if n == 5 && s.get_char(0) == 'f' && s.get_char(1) == 'a' && s.get_char(2) == 'l' && s.get_char(3) == 's'
        && s.get_char(4) == 'e' {
        assert(s@ =~= false_word());
        Some(false)
    } else {
        proof {
            if s@ == true_word() {
                assert(s@[0] == 't' && s@[1] == 'r' && s@[2] == 'u' && s@[3] == 'e');
            }
            if s@ == false_word() {
                assert(s@[0] == 'f' && s@[1] == 'a' && s@[2] == 'l' && s@[3] == 's' && s@[4] == 'e');
            }
        }
        None
    }
}

/// Reading digits from `j` in a text of digits from `j` on reaches its end.
proof fn lemma_all_digits_end(s: Seq<char>, j: int)
    requires
        0 <= j <= s.len(),
        forall|m: int| j <= m < s.len() ==> '0' <= #[trigger] s[m] <= '9',
    ensures
        digits_end(s, j) == s.len(),
    decreases s.len() - j,
{
    if j < s.len() {
        lemma_all_digits_end(s, j + 1);
    }
}

/// Law: a non-empty run of decimal digits, with or without a sign before it, reads as a
/// floating-point number, and so do two such runs joined by a point.
pub proof fn lemma_decimal_texts_are_floats(d: Seq<char>, f: Seq<char>, sign: Seq<char>)
    requires
        d.len() > 0,
        forall|m: int| 0 <= m < d.len() ==> '0' <= #[trigger] d[m] <= '9',
        forall|m: int| 0 <= m < f.len() ==> '0' <= #[trigger] f[m] <= '9',
        sign == Seq::<char>::empty() || sign == seq!['+'] || sign == seq!['-'],
    ensures
        is_float_literal(sign + d),
        is_float_literal(sign + d + seq!['.'] + f),
{
    let s1 = sign + d;
    assert(s1.skip(sign_len(s1)) =~= d);
    lemma_all_digits_end(d, 0);
    let e = d + seq!['.'] + f;
    let s2 = sign + d + seq!['.'] + f;
    assert(s2.skip(sign_len(s2)) =~= e);
    assert forall|m: int| 0 <= m < d.len() implies '0' <= #[trigger] e[m] <= '9' by {
        assert(e[m] == d[m]);
    }
    lemma_digits_stop(e, d.len() as int);
    assert forall|m: int| d.len() + 1 <= m < e.len() implies '0' <= #[trigger] e[m] <= '9' by {
        assert(e[m] == f[m - d.len() - 1]);
    }
    lemma_all_digits_end(e, (d.len() + 1) as int);
}

/// Reading digits from 0 stops at position `k` when all before `k` are digits and `k` is not.
proof fn lemma_digits_stop(s: Seq<char>, k: int)
    requires
        0 <= k < s.len(),
        forall|m: int| 0 <= m < k ==> '0' <= #[trigger] s[m] <= '9',
        !('0' <= s[k] <= '9'),
    ensures
        digits_end(s, 0) == k,
{
    lemma_digits_stop_from(s, 0, k);
}

proof fn lemma_digits_stop_from(s: Seq<char>, j: int, k: int)
    requires
        0 <= j <= k < s.len(),
        forall|m: int| j <= m < k ==> '0' <= #[trigger] s[m] <= '9',
        !('0' <= s[k] <= '9'),
    ensures
        digits_end(s, j) == k,
    decreases k - j,
{
    if j < k {
        lemma_digits_stop_from(s, j + 1, k);
    }
}

/// Law: the empty text, a lone sign and a lone point are no numbers; only `true` and `false`
/// read as booleans, as themselves.
pub proof fn lemma_non_literals(s: Seq<char>)
    ensures
        !is_float_literal(Seq::<char>::empty()),
        !is_float_literal(seq!['+']),
        !is_float_literal(seq!['-']),
        !is_float_literal(seq!['.']),
        bool_literal(s) == Some(true) <==> s == seq!['t', 'r', 'u', 'e'],
        bool_literal(s) == Some(false) <==> s == seq!['f', 'a', 'l', 's', 'e'],
{
    assert(seq!['+'].skip(1) =~= Seq::<char>::empty());
    assert(seq!['-'].skip(1) =~= Seq::<char>::empty());
    assert(seq!['.'].skip(0) =~= seq!['.']);
    assert(digits_end(seq!['.'], 0) == 0);
    assert(digits_end(seq!['.'], 1) == 1);
}

} // verus!
