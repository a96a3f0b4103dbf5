//! Reading of unsigned integers and recognition of floating point literals.
use vstd::prelude::*;
use crate::text::{chars_of, decimal, digit_char};

verus! {

broadcast use vstd::string::group_string_axioms;

/// Why a text is not an unsigned integer.
#[derive(Debug, Clone, Copy, PartialEq, Eq, Structural)]
pub enum IntErrorKind {
    Empty,
    InvalidDigit,
    PosOverflow,
}

/// Why a text is not a floating point number.
#[derive(Debug, Clone, Copy, PartialEq, Eq, Structural)]
pub enum FloatErrorKind {
    Empty,
    Invalid,
}

pub open spec fn is_digit(c: char) -> bool {
    '0' <= c && c <= '9'
}

pub open spec fn digit_value(c: char) -> nat {
    ((c as u32) - ('0' as u32)) as nat
}

pub open spec fn all_digits(s: Seq<char>) -> bool {
    forall|i: int| 0 <= i < s.len() ==> is_digit(#[trigger] s[i])
}

/// Left-to-right reading of decimal digits onto `acc`: the first character
/// that is no digit, or the first digit that makes the value exceed
/// `usize::MAX`, decides the error.
pub open spec fn scan_digits(d: Seq<char>, acc: nat) -> Result<nat, IntErrorKind>
    decreases d.len(),
{
    if d.len() == 0 {
        Ok(acc)
    } else if !is_digit(d[0]) {
        Err(IntErrorKind::InvalidDigit)
    } else if acc * 10 + digit_value(d[0]) > usize::MAX {
        Err(IntErrorKind::PosOverflow)
    } else {
        scan_digits(d.drop_first(), acc * 10 + digit_value(d[0]))
    }
}

/// The value of an unsigned decimal text with an optional leading `+`
/// (as `str::parse::<usize>`).
pub open spec fn spec_parse_usize(s: Seq<char>) -> Result<nat, IntErrorKind> {
    if s.len() == 0 {
        Err(IntErrorKind::Empty)
    } else if s[0] == '+' {
        if s.len() == 1 {
            Err(IntErrorKind::InvalidDigit)
        } else {
            scan_digits(s.drop_first(), 0)
        }
    } else {
        scan_digits(s, 0)
    }
}

/// The ASCII lower-case form of `c`.
pub open spec fn ascii_lower(c: char) -> char {
    if 'A' <= c && c <= 'Z' {
        ((c as u32) + 32) as char
    } else {
        c
    }
}

/// `s` equals the lower-case word `w` when lower-cased.
pub open spec fn ci_word(s: Seq<char>, w: Seq<char>) -> bool {
    &&& s.len() == w.len()
    &&& forall|i: int| 0 <= i < s.len() ==> ascii_lower(#[trigger] s[i]) == w[i]
}

/// Index of the first `e` or `E` in `t`, or -1.
pub open spec fn find_exp(t: Seq<char>) -> int
    decreases t.len(),
{
    if t.len() == 0 {
        -1
    } else if ascii_lower(t[0]) == 'e' {
        0
    } else {
        let r = find_exp(t.drop_first());
        if r < 0 {
            -1
        } else {
            r + 1
        }
    }
}

/// Digits with at most one `.` among them, and at least one digit.
pub open spec fn is_mantissa(m: Seq<char>) -> bool {
    &&& forall|i: int| 0 <= i < m.len() ==> is_digit(#[trigger] m[i]) || m[i] == '.'
    &&& forall|i: int, j: int| 0 <= i < m.len() && 0 <= j < m.len() && m[i] == '.' && m[j] == '.' ==> i == j
    &&& exists|i: int| 0 <= i < m.len() && is_digit(#[trigger] m[i])
}

/// An optional sign followed by at least one digit.
pub open spec fn is_exponent_digits(x: Seq<char>) -> bool {
    let d = if x.len() > 0 && (x[0] == '+' || x[0] == '-') {
        x.drop_first()
    } else {
        x
    };
    d.len() > 0 && all_digits(d)
}

/// `Number ::= ( Digit+ | Digit+ '.' Digit* | Digit* '.' Digit+ ) Exp?`
/// with `Exp ::= 'e' Sign? Digit+`, the exponent marker in either case.
pub open spec fn is_decimal_number(t: Seq<char>) -> bool {
    let e = find_exp(t);
    if e < 0 {
        is_mantissa(t)
    } else {
        is_mantissa(t.subrange(0, e)) && is_exponent_digits(t.subrange(e + 1, t.len() as int))
    }
}

/// The floating point literal grammar of `str::parse::<f64>`:
/// `Sign? ( 'inf' | 'infinity' | 'nan' | Number )`, case-insensitive.
pub open spec fn spec_is_float_literal(s: Seq<char>) -> bool {
    let body = if s.len() > 0 && (s[0] == '+' || s[0] == '-') {
        s.drop_first()
    } else {
        s
    };
    ||| ci_word(body, seq!['i', 'n', 'f'])
    ||| ci_word(body, seq!['i', 'n', 'f', 'i', 'n', 'i', 't', 'y'])
    ||| ci_word(body, seq!['n', 'a', 'n'])
    ||| is_decimal_number(body)
}

/// The outcome of reading `s` as a floating point number.
pub open spec fn spec_float_check(s: Seq<char>) -> Result<(), FloatErrorKind> {
    if s.len() == 0 {
        Err(FloatErrorKind::Empty)
    } else if spec_is_float_literal(s) {
        Ok(())
    } else {
        Err(FloatErrorKind::Invalid)
    }
}

/// The digit characters are digits of the right value.
proof fn lemma_digit_char(d: nat)
    requires
        d < 10,
    ensures
        is_digit(digit_char(d)),
        digit_value(digit_char(d)) == d,
{
}

/// Reading one more character after `s`.
proof fn lemma_scan_digits_push(s: Seq<char>, c: char, acc: nat, v: nat)
    requires
        scan_digits(s, acc) == Ok::<nat, IntErrorKind>(v),
        is_digit(c),
        v * 10 + digit_value(c) <= usize::MAX,
    ensures
        scan_digits(s.push(c), acc) == Ok::<nat, IntErrorKind>(v * 10 + digit_value(c)),
    decreases s.len(),
{
    if s.len() == 0 {
        assert(s.push(c).drop_first() =~= Seq::<char>::empty());
        assert(s.push(c)[0] == c);
        assert(scan_digits(Seq::<char>::empty(), acc * 10 + digit_value(c)) == Ok::<nat, IntErrorKind>(acc * 10 + digit_value(c)));
    } else {
        let next = acc * 10 + digit_value(s[0]);
        assert(s.push(c)[0] == s[0]);
        assert(s.push(c).drop_first() =~= s.drop_first().push(c));
        lemma_scan_digits_push(s.drop_first(), c, next, v);
    }
}

/// The decimal text of a number reads back as that number.
pub proof fn lemma_scan_decimal(n: nat)
    requires
        n <= usize::MAX,
    ensures
        scan_digits(decimal(n), 0) == Ok::<nat, IntErrorKind>(n),
        decimal(n).len() > 0,
        is_digit(decimal(n)[0]),
    decreases n,
{
    if n < 10 {
        lemma_digit_char(n);
        assert(seq![digit_char(n)].drop_first() =~= Seq::<char>::empty());
        assert(seq![digit_char(n)][0] == digit_char(n));
        assert(scan_digits(Seq::<char>::empty(), n) == Ok::<nat, IntErrorKind>(n));
    } else {
        lemma_scan_decimal(n / 10);
        lemma_digit_char(n % 10);
        assert((n / 10) * 10 + n % 10 == n);
        lemma_scan_digits_push(decimal(n / 10), digit_char(n % 10), 0, n / 10);
        assert(decimal(n)[0] == decimal(n / 10)[0]);
    }
}

/// `str::parse::<usize>` reads the decimal text of any `usize` back.
pub proof fn lemma_parse_usize_decimal(n: usize)
    ensures
        spec_parse_usize(decimal(n as nat)) == Ok::<nat, IntErrorKind>(n as nat),
{
    lemma_scan_decimal(n as nat);
}

fn digit_of(c: char) -> (r: Option<usize>)
    ensures
        match r {
            Some(v) => is_digit(c) && v == digit_value(c) && v < 10,
            None => !is_digit(c),
        },
{
    if '0' <= c && c <= '9' {
        Some(((c as u32) - ('0' as u32)) as usize)
    } else {
        None
    }
}

/// Reads `cs[start..]` as decimal digits (as `scan_digits` with a zero accumulator).
fn scan_digits_from(cs: &Vec<char>, start: usize) -> (r: Result<usize, IntErrorKind>)
    requires
        start <= cs@.len(),
    ensures
        match r {
            Ok(v) => scan_digits(cs@.subrange(start as int, cs@.len() as int), 0) == Ok::<
                nat,
                IntErrorKind,
            >(v as nat),
            Err(k) => scan_digits(cs@.subrange(start as int, cs@.len() as int), 0) == Err::<
                nat,
                IntErrorKind,
            >(k),
        },
{
    let n = cs.len();
    let mut acc: usize = 0;
    let mut i: usize = start;
    while i < n
        invariant
            start <= i <= n,
            n == cs@.len(),
            scan_digits(cs@.subrange(start as int, n as int), 0) == scan_digits(
                cs@.subrange(i as int, n as int),
                acc as nat,
            ),
        decreases n - i,
    {
        let ghost rest = cs@.subrange(i as int, n as int);
        assert(rest.drop_first() =~= cs@.subrange(i + 1, n as int));
        match digit_of(cs[i]) {
            None => {
                return Err(IntErrorKind::InvalidDigit);
            },
            Some(d) => {
                if acc > (usize::MAX - d) / 10 {
                    assert(acc * 10 + d > usize::MAX) by (nonlinear_arith)
                        requires
                            acc > (usize::MAX - d) / 10,
                            d < 10,
                    ;
                    return Err(IntErrorKind::PosOverflow);
                }
                assert(acc * 10 + d <= usize::MAX) by (nonlinear_arith)
                    requires
                        acc <= (usize::MAX - d) / 10,
                        d < 10,
                ;
                acc = acc * 10 + d;
            },
        }
        i = i + 1;
    }
    Ok(acc)
}

/// Reads `s` as an unsigned decimal integer (as `str::parse::<usize>`).
pub fn parse_usize(s: &str) -> (r: Result<usize, IntErrorKind>)
    ensures
        match r {
            Ok(v) => spec_parse_usize(s@) == Ok::<nat, IntErrorKind>(v as nat),
            Err(k) => spec_parse_usize(s@) == Err::<nat, IntErrorKind>(k),
        },
{
    let cs = chars_of(s);
    let n = cs.len();
    if n == 0 {
        return Err(IntErrorKind::Empty);
    }
    if cs[0] == '+' {
        if n == 1 {
            return Err(IntErrorKind::InvalidDigit);
        }
        assert(s@.drop_first() =~= cs@.subrange(1, n as int));
        scan_digits_from(&cs, 1)
    } else {
        assert(s@ =~= cs@.subrange(0, n as int));
        scan_digits_from(&cs, 0)
    }
}

fn lower_is(c: char, l: char) -> (r: bool)
    requires
        'a' <= l <= 'z',
    ensures
        r == (ascii_lower(c) == l),
{
    let u = c as u32;
    let lu = l as u32;
    c == l || ('A' <= c && c <= 'Z' && u + 32 == lu)
}

/// `b` equals `w` when lower-cased, where `w` is a lower-case word.
fn word_ci(b: &Vec<char>, w: &Vec<char>) -> (r: bool)
    requires
        forall|i: int| 0 <= i < w@.len() ==> 'a' <= #[trigger] w@[i] <= 'z',
    ensures
        r == ci_word(b@, w@),
{
    if b.len() != w.len() {
        return false;
    }
    let n = b.len();
    let mut i: usize = 0;
    while i < n
        invariant
            i <= n,
            n == b@.len(),
            n == w@.len(),
            forall|i: int| 0 <= i < w@.len() ==> 'a' <= #[trigger] w@[i] <= 'z',
            forall|j: int| 0 <= j < i ==> ascii_lower(#[trigger] b@[j]) == w@[j],
        decreases n - i,
    {
        if !lower_is(b[i], w[i]) {
            return false;
        }
        i = i + 1;
    }
    true
}

fn is_mantissa_range(t: &Vec<char>, lo: usize, hi: usize) -> (r: bool)
    requires
        lo <= hi <= t@.len(),
    ensures
        r == is_mantissa(t@.subrange(lo as int, hi as int)),
{
    let ghost m = t@.subrange(lo as int, hi as int);
    let mut i: usize = lo;
    let mut dots: usize = 0;
    let mut dot_at: usize = 0;
    let mut digits: usize = 0;
    let mut digit_at: usize = 0;
    while i < hi
        invariant
            lo <= i <= hi,
            hi <= t@.len(),
            m == t@.subrange(lo as int, hi as int),
            forall|k: int| lo <= k < i ==> is_digit(#[trigger] t@[k]) || t@[k] == '.',
            dots <= 1,
            dots == 0 ==> forall|k: int| lo <= k < i ==> t@[k] != '.',
            dots == 1 ==> lo <= dot_at < i && t@[dot_at as int] == '.' && forall|k: int|
                lo <= k < i && t@[k] == '.' ==> k == dot_at,
            digits == 0 ==> forall|k: int| lo <= k < i ==> !is_digit(#[trigger] t@[k]),
            digits > 0 ==> lo <= digit_at < i && is_digit(t@[digit_at as int]),
            digits <= i - lo,
        decreases hi - i,
    {
        let c = t[i];
        if '0' <= c && c <= '9' {
            digits = digits + 1;
            digit_at = i;
        } else if c == '.' {
            if dots == 1 {
                assert(m[dot_at - lo] == '.' && m[i - lo] == '.');
                return false;
            }
            dots = 1;
            dot_at = i;
        } else {
            assert(m[i - lo] == c);
            return false;
        }
        i = i + 1;
    }
    if digits == 0 {
        assert forall|k: int| 0 <= k < m.len() implies !is_digit(#[trigger] m[k]) by {
            assert(m[k] == t@[k + lo]);
        }
        return false;
    }
    assert(is_digit(m[digit_at - lo]));
    assert forall|k: int| 0 <= k < m.len() implies is_digit(#[trigger] m[k]) || m[k] == '.' by {
        assert(m[k] == t@[k + lo]);
    }
    assert forall|a: int, b: int|
        0 <= a < m.len() && 0 <= b < m.len() && m[a] == '.' && m[b] == '.' implies a == b by {
        assert(m[a] == t@[a + lo]);
        assert(m[b] == t@[b + lo]);
    }
    true
}

fn is_exponent_range(t: &Vec<char>, lo: usize) -> (r: bool)
    requires
        lo <= t@.len(),
    ensures
        r == is_exponent_digits(t@.subrange(lo as int, t@.len() as int)),
{
    let n = t.len();
    let ghost x = t@.subrange(lo as int, n as int);
    let mut i = lo;
    if i < n && (t[i] == '+' || t[i] == '-') {
        i = i + 1;
        assert(x.drop_first() =~= t@.subrange(i as int, n as int));
    } else {
        assert(x =~= t@.subrange(i as int, n as int));
    }
    let ghost d = t@.subrange(i as int, n as int);
    if i == n {
        return false;
    }
    let start = i;
    assert(is_exponent_digits(x) == (d.len() > 0 && all_digits(d)));
    while i < n
        invariant
            start <= i <= n,
            n == t@.len(),
            d == t@.subrange(start as int, n as int),
            x == t@.subrange(lo as int, n as int),
            is_exponent_digits(x) == (d.len() > 0 && all_digits(d)),
            forall|k: int| start <= k < i ==> is_digit(#[trigger] t@[k]),
        decreases n - i,
    {
        if !('0' <= t[i] && t[i] <= '9') {
            assert(d[i - start] == t@[i as int]);
            return false;
        }
        i = i + 1;
    }
    assert forall|k: int| 0 <= k < d.len() implies is_digit(#[trigger] d[k]) by {
        assert(d[k] == t@[k + start]);
    }
    true
}

fn find_exp_in(t: &Vec<char>) -> (r: Option<usize>)
    ensures
        match r {
            Some(p) => find_exp(t@) == p as int && p < t@.len(),
            None => find_exp(t@) == -1,
        },
{
    let n = t.len();
    let mut i: usize = 0;
    assert(t@.subrange(0, n as int) =~= t@);
    while i < n
        invariant
            i <= n,
            n == t@.len(),
            find_exp(t@) == (if find_exp(t@.subrange(i as int, n as int)) < 0 {
                -1
            } else {
                find_exp(t@.subrange(i as int, n as int)) + i
            }),
        decreases n - i,
    {
        if lower_is(t[i], 'e') {
            return Some(i);
        }
        assert(t@.subrange(i as int, n as int).drop_first() =~= t@.subrange(i + 1, n as int));
        i = i + 1;
    }
    None
}

fn word(w: &str) -> (v: Vec<char>)
    ensures
        v@ == w@,
{
    chars_of(w)
}

/// Whether `s` is a floating point literal that `str::parse::<f64>` accepts.
pub fn is_float_literal(s: &str) -> (r: bool)
    ensures
        r == spec_is_float_literal(s@),
{
    let cs = chars_of(s);
    let n = cs.len();
    let mut start: usize = 0;
    if n > 0 && (cs[0] == '+' || cs[0] == '-') {
        start = 1;
    }
    let mut body: Vec<char> = Vec::new();
    let mut i = start;
    while i < n
        invariant
            start <= i <= n,
            n == cs@.len(),
            body@ == cs@.subrange(start as int, i as int),
        decreases n - i,
    {
        body.push(cs[i]);
        assert(body@ =~= cs@.subrange(start as int, i + 1));
        i = i + 1;
    }
    proof {
        if start == 1 {
            assert(s@.drop_first() =~= body@);
        } else {
            assert(s@ =~= body@);
        }
        reveal_strlit("inf");
        reveal_strlit("infinity");
        reveal_strlit("nan");
    }
    let w_inf = word("inf");
    let w_infinity = word("infinity");
    let w_nan = word("nan");
    assert(w_inf@ =~= seq!['i', 'n', 'f']);
    assert(w_infinity@ =~= seq!['i', 'n', 'f', 'i', 'n', 'i', 't', 'y']);
    assert(w_nan@ =~= seq!['n', 'a', 'n']);
    if word_ci(&body, &w_inf) || word_ci(&body, &w_infinity) || word_ci(&body, &w_nan) {
        return true;
    }
    let m = body.len();
    match find_exp_in(&body) {
        None => {
            assert(body@.subrange(0, m as int) =~= body@);
            is_mantissa_range(&body, 0, m)
        },
        Some(e) => is_mantissa_range(&body, 0, e) && is_exponent_range(&body, e + 1),
    }
}

/// Checks `s` as `str::parse::<f64>` does, without computing the number.
pub fn float_check(s: &str) -> (r: Result<(), FloatErrorKind>)
    ensures
        r == spec_float_check(s@),
{
    if s.is_empty() {
        Err(FloatErrorKind::Empty)
    } else if is_float_literal(s) {
        Ok(())
    } else {
        Err(FloatErrorKind::Invalid)
    }
}

} // verus!
