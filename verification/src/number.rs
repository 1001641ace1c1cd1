//! Numbers written as text, read and compared exactly.
//!
//! A number is an optional sign, then digits with an optional fraction and
//! an optional exponent, or `inf`, `infinity` or `nan` in any case. Finite
//! numbers compare by their exact decimal value; an exponent's magnitude is
//! read up to `EXPONENT_CAP`, where it saturates.

use vstd::prelude::*;

verus! {

/// The largest exponent magnitude that is read exactly.
pub const EXPONENT_CAP: i128 = 1_000_000_000_000_000_000;

/// A number: not a number, an infinity, or a finite value `0.D × 10^p`
/// with `D` the significant digits, none leading or trailing zero (zero
/// has no digits and no sign).
pub enum Num {
    NaN,
    Inf(bool),
    Fin(bool, Seq<char>, int),
}

pub open spec fn is_digit(c: char) -> bool {
    '0' <= c && c <= '9'
}

/// End of the run of digits in `s` that starts at `i`.
pub open spec fn digit_run_end(s: Seq<char>, i: int) -> int
    decreases s.len() - i,
{
    if 0 <= i < s.len() && is_digit(s[i]) {
        digit_run_end(s, i + 1)
    } else {
        i
    }
}

pub proof fn lemma_digit_run_end(s: Seq<char>, i: int)
    requires
        0 <= i <= s.len(),
    ensures
        i <= digit_run_end(s, i) <= s.len(),
        forall|k: int| i <= k < digit_run_end(s, i) ==> is_digit(#[trigger] s[k]),
        digit_run_end(s, i) < s.len() ==> !is_digit(s[digit_run_end(s, i)]),
    decreases s.len() - i,
{
    if i < s.len() && is_digit(s[i]) {
        lemma_digit_run_end(s, i + 1);
    }
}

/// The value of a digit.
pub open spec fn digit_value(c: char) -> int {
    (c as u32 - '0' as u32) as int
}

/// The value of the exponent digits `ds`, saturating at `EXPONENT_CAP`.
pub open spec fn exponent_value(ds: Seq<char>) -> int
    decreases ds.len(),
{
    if ds.len() == 0 {
        0
    } else {
        let v = exponent_value(ds.drop_last()) * 10 + digit_value(ds.last());
        if v > EXPONENT_CAP {
            EXPONENT_CAP as int
        } else {
            v
        }
    }
}

/// Number of leading `'0'`s of `s`.
pub open spec fn leading_zeros(s: Seq<char>) -> nat
    decreases s.len(),
{
    if s.len() > 0 && s[0] == '0' {
        1 + leading_zeros(s.drop_first())
    } else {
        0
    }
}

/// `s` without its trailing `'0'`s.
pub open spec fn strip_trailing_zeros(s: Seq<char>) -> Seq<char>
    decreases s.len(),
{
    if s.len() > 0 && s.last() == '0' {
        strip_trailing_zeros(s.drop_last())
    } else {
        s
    }
}

/// The finite number with integer digits `i`, fraction digits `f` and
/// exponent `e`.
pub open spec fn finite(neg: bool, i: Seq<char>, f: Seq<char>, e: int) -> Num {
    let all = i + f;
    let z = leading_zeros(all);
    let d = strip_trailing_zeros(all.skip(z as int));
    if d.len() == 0 {
        Num::Fin(false, d, 0)
    } else {
        Num::Fin(neg, d, i.len() + e - z)
    }
}

/// `s` equals a word whose each character is `lower[k]` or `upper[k]`.
pub open spec fn word_in_any_case(s: Seq<char>, lower: Seq<char>, upper: Seq<char>) -> bool {
    s.len() == lower.len() && forall|k: int| 0 <= k < s.len() ==> (#[trigger] s[k] == lower[k] || s[k]
        == upper[k])
}

/// The number written as `body` after its sign.
pub open spec fn unsigned_number(neg: bool, body: Seq<char>) -> Option<Num> {
    if word_in_any_case(body, seq!['i', 'n', 'f'], seq!['I', 'N', 'F']) || word_in_any_case(
        body,
        seq!['i', 'n', 'f', 'i', 'n', 'i', 't', 'y'],
        seq!['I', 'N', 'F', 'I', 'N', 'I', 'T', 'Y'],
    ) {
        Some(Num::Inf(neg))
    } else if word_in_any_case(body, seq!['n', 'a', 'n'], seq!['N', 'A', 'N']) {
        Some(Num::NaN)
    } else {
        let a = digit_run_end(body, 0);
        let has_point = a < body.len() && body[a] == '.';
        let b = if has_point {
            digit_run_end(body, a + 1)
        } else {
            a
        };
        let i = body.take(a);
        let f = if has_point {
            body.subrange(a + 1, b)
        } else {
            Seq::empty()
        };
        if i.len() == 0 && f.len() == 0 {
            None
        } else if b == body.len() {
            Some(finite(neg, i, f, 0))
        } else if body[b] == 'e' || body[b] == 'E' {
            let c = b + 1;
            let eneg = c < body.len() && body[c] == '-';
            let c2 = if c < body.len() && (body[c] == '+' || body[c] == '-') {
                c + 1
            } else {
                c
            };
            let d = digit_run_end(body, c2);
            if d == c2 || d != body.len() {
                None
            } else {
                let e = exponent_value(body.subrange(c2, d));
                Some(finite(neg, i, f, if eneg { -e } else { e }))
            }
        } else {
            None
        }
    }
}

/// The number `s` writes, if it is one.
pub open spec fn number_of(s: Seq<char>) -> Option<Num> {
    if s.len() > 0 && (s[0] == '+' || s[0] == '-') {
        unsigned_number(s[0] == '-', s.drop_first())
    } else {
        unsigned_number(false, s)
    }
}

/// Lexicographic order of digit strings: -1, 0 or 1.
pub open spec fn digits_order(a: Seq<char>, b: Seq<char>) -> int
    decreases a.len(),
{
    if a.len() == 0 && b.len() == 0 {
        0
    } else if a.len() == 0 {
        -1
    } else if b.len() == 0 {
        1
    } else if a[0] < b[0] {
        -1
    } else if a[0] > b[0] {
        1
    } else {
        digits_order(a.drop_first(), b.drop_first())
    }
}

/// The sign of a number: -1, 0 or 1.
pub open spec fn num_sign(n: Num) -> int {
    match n {
        Num::NaN => 0,
        Num::Inf(neg) => if neg { -1 } else { 1 },
        Num::Fin(neg, d, _) => if d.len() == 0 { 0 } else if neg { -1 } else { 1 },
    }
}

/// How `a` compares with `b`: -1, 0 or 1, or `None` when either is not a
/// number.
pub open spec fn num_order(a: Num, b: Num) -> Option<int> {
    match (a, b) {
        (Num::NaN, _) => None,
        (_, Num::NaN) => None,
        (Num::Inf(n1), Num::Inf(n2)) => Some(
            if n1 == n2 {
                0
            } else if n1 {
                -1
            } else {
                1
            },
        ),
        (Num::Inf(n1), _) => Some(if n1 { -1 } else { 1 }),
        (_, Num::Inf(n2)) => Some(if n2 { 1 } else { -1 }),
        (Num::Fin(_, d1, p1), Num::Fin(_, d2, p2)) => {
            let s1 = num_sign(a);
            let s2 = num_sign(b);
            if s1 != s2 {
                Some(if s1 < s2 { -1 } else { 1 })
            } else if s1 == 0 {
                Some(0)
            } else {
                let mag = if p1 != p2 {
                    if p1 < p2 { -1 } else { 1 }
                } else {
                    digits_order(d1, d2)
                };
                if s1 > 0 {
                    Some(mag)
                } else {
                    Some(0 - mag)
                }
            }
        },
    }
}

/// A number read from text.
pub enum Number {
    NaN,
    Inf(bool),
    Fin(bool, Vec<char>, i128),
}

impl View for Number {
    type V = Num;

    open spec fn view(&self) -> Num {
        match self {
            Number::NaN => Num::NaN,
            Number::Inf(neg) => Num::Inf(*neg),
            Number::Fin(neg, d, p) => Num::Fin(*neg, d@, *p as int),
        }
    }
}

fn digit_run_end_exec(s: &[char], i: usize) -> (r: usize)
    requires
        i <= s.len(),
    ensures
        r == digit_run_end(s@, i as int),
{
    let mut k = i;
    while k < s.len() && '0' <= s[k] && s[k] <= '9'
        invariant
            i <= k <= s.len(),
            digit_run_end(s@, i as int) == digit_run_end(s@, k as int),
        decreases s.len() - k,
    {
        k = k + 1;
    }
    k
}

fn word_in_any_case_exec(s: &[char], lower: &[char], upper: &[char]) -> (r: bool)
    requires
        lower.len() == upper.len(),
    ensures
        r == word_in_any_case(s@, lower@, upper@),
{
    if s.len() != lower.len() {
        return false;
    }
    let mut k: usize = 0;
    while k < s.len()
        invariant
            k <= s.len(),
            s.len() == lower.len(),
            lower.len() == upper.len(),
            forall|m: int| 0 <= m < k ==> (#[trigger] s@[m] == lower@[m] || s@[m] == upper@[m]),
        decreases s.len() - k,
    {
        if !(s[k] == lower[k] || s[k] == upper[k]) {
            return false;
        }
        k = k + 1;
    }
    true
}

#[verifier::loop_isolation(false)]
fn exponent_value_exec(ds: &[char]) -> (r: i128)
    requires
        forall|k: int| 0 <= k < ds.len() ==> is_digit(#[trigger] ds@[k]),
    ensures
        r == exponent_value(ds@),
        0 <= r <= EXPONENT_CAP,
{
    let mut v: i128 = 0;
    let mut k: usize = 0;
    while k < ds.len()
        invariant
            k <= ds.len(),
            v == exponent_value(ds@.take(k as int)),
            0 <= v <= EXPONENT_CAP,
        decreases ds.len() - k,
    {
        proof {
            assert(ds@.take(k + 1).drop_last() == ds@.take(k as int));
            assert(is_digit(ds@[k as int]));
        }
        let d = (ds[k] as u32 - '0' as u32) as i128;
        let w = v * 10 + d;
        v = if w > EXPONENT_CAP {
            EXPONENT_CAP
        } else {
            w
        };
        k = k + 1;
    }
    proof {
        assert(ds@.take(ds.len() as int) == ds@);
    }
    v
}

fn leading_zeros_exec(s: &[char]) -> (r: usize)
    ensures
        r == leading_zeros(s@),
        r <= s.len(),
{
    let mut k: usize = 0;
    proof {
        assert(s@.skip(0) == s@);
    }
    while k < s.len() && s[k] == '0'
        invariant
            k <= s.len(),
            leading_zeros(s@) == k + leading_zeros(s@.skip(k as int)),
        decreases s.len() - k,
    {
        proof {
            assert(s@.skip(k as int).drop_first() == s@.skip(k + 1));
        }
        k = k + 1;
    }
    proof {
        assert(s@.skip(0) == s@);
    }
    k
}

fn strip_trailing_zeros_exec(s: &[char]) -> (r: Vec<char>)
    ensures
        r@ == strip_trailing_zeros(s@),
{
    let mut n = s.len();
    proof {
        assert(s@.take(s.len() as int) == s@);
    }
    while n > 0 && s[n - 1] == '0'
        invariant
            n <= s.len(),
            strip_trailing_zeros(s@) == strip_trailing_zeros(s@.take(n as int)),
        decreases n,
    {
        proof {
            assert(s@.take(n as int).drop_last() == s@.take(n - 1));
        }
        n = n - 1;
    }
    proof {
        assert(s@.take(s.len() as int) == s@);
    }
    crate::text::slice_vec(s, 0, n)
}

fn finite_exec(neg: bool, i: &[char], f: &[char], e: i128) -> (r: Number)
    requires
        -EXPONENT_CAP <= e <= EXPONENT_CAP,
    ensures
        r@ == finite(neg, i@, f@, e as int),
{
    let mut all: Vec<char> = Vec::new();
    let mut k: usize = 0;
    while k < i.len()
        invariant
            k <= i.len(),
            all@ == i@.take(k as int),
        decreases i.len() - k,
    {
        all.push(i[k]);
        k = k + 1;
        proof {
            assert(all@ == i@.take(k as int));
        }
    }
    let mut k: usize = 0;
    proof {
        assert(i@.take(i.len() as int) == i@);
    }
    while k < f.len()
        invariant
            k <= f.len(),
            all@ == i@ + f@.take(k as int),
        decreases f.len() - k,
    {
        all.push(f[k]);
        k = k + 1;
        proof {
            assert(all@ == i@ + f@.take(k as int));
        }
    }
    proof {
        assert(f@.take(f.len() as int) == f@);
    }
    let z = leading_zeros_exec(&all);
    let rest = crate::text::slice_vec(&all, z, all.len());
    proof {
        assert(rest@ == all@.skip(z as int));
    }
    let d = strip_trailing_zeros_exec(&rest);
    if d.len() == 0 {
        Number::Fin(false, d, 0)
    } else {
        let p = i.len() as i128 + e - z as i128;
        Number::Fin(neg, d, p)
    }
}

#[verifier::loop_isolation(false)]
fn unsigned_number_exec(neg: bool, body: &[char]) -> (r: Option<Number>)
    ensures
        match r {
            Some(n) => unsigned_number(neg, body@) == Some(n@),
            None => unsigned_number(neg, body@) is None,
        },
{
    proof {
        assert(['i', 'n', 'f']@ == seq!['i', 'n', 'f']);
        assert(['I', 'N', 'F']@ == seq!['I', 'N', 'F']);
        assert(['i', 'n', 'f', 'i', 'n', 'i', 't', 'y']@ == seq!['i', 'n', 'f', 'i', 'n', 'i', 't', 'y']);
        assert(['I', 'N', 'F', 'I', 'N', 'I', 'T', 'Y']@ == seq!['I', 'N', 'F', 'I', 'N', 'I', 'T', 'Y']);
        assert(['n', 'a', 'n']@ == seq!['n', 'a', 'n']);
        assert(['N', 'A', 'N']@ == seq!['N', 'A', 'N']);
    }
    if word_in_any_case_exec(body, &['i', 'n', 'f'], &['I', 'N', 'F']) || word_in_any_case_exec(
        body,
        &['i', 'n', 'f', 'i', 'n', 'i', 't', 'y'],
        &['I', 'N', 'F', 'I', 'N', 'I', 'T', 'Y'],
    ) {
        return Some(Number::Inf(neg));
    }
    if word_in_any_case_exec(body, &['n', 'a', 'n'], &['N', 'A', 'N']) {
        return Some(Number::NaN);
    }
    let a = digit_run_end_exec(body, 0);
    proof {
        lemma_digit_run_end(body@, 0);
    }
    let has_point = a < body.len() && body[a] == '.';
    let b = if has_point {
        proof {
            lemma_digit_run_end(body@, a + 1);
        }
        digit_run_end_exec(body, a + 1)
    } else {
        a
    };
    let i = crate::text::slice_vec(body, 0, a);
    let f = if has_point {
        crate::text::slice_vec(body, a + 1, b)
    } else {
        Vec::new()
    };
    proof {
        assert(i@ == body@.take(a as int));
        if !has_point {
            assert(f@ == Seq::<char>::empty());
        }
    }
    if i.len() == 0 && f.len() == 0 {
        return None;
    }
    if b == body.len() {
        return Some(finite_exec(neg, &i, &f, 0));
    }
    if body[b] == 'e' || body[b] == 'E' {
        let c = b + 1;
        let eneg = c < body.len() && body[c] == '-';
        let c2 = if c < body.len() && (body[c] == '+' || body[c] == '-') {
            c + 1
        } else {
            c
        };
        proof {
            lemma_digit_run_end(body@, c2 as int);
        }
        let d = digit_run_end_exec(body, c2);
        if d == c2 || d != body.len() {
            return None;
        }
        let ds = crate::text::slice_vec(body, c2, d);
        let e = exponent_value_exec(&ds);
        let signed = if eneg {
            -e
        } else {
            e
        };
        return Some(finite_exec(neg, &i, &f, signed));
    }
    None
}

/// Read the number `s` writes, if it is one.
pub fn number_from_chars(s: &[char]) -> (r: Option<Number>)
    ensures
        match r {
            Some(n) => number_of(s@) == Some(n@),
            None => number_of(s@) is None,
        },
{
    if s.len() > 0 && (s[0] == '+' || s[0] == '-') {
        let body = crate::text::slice_vec(s, 1, s.len());
        proof {
            assert(body@ == s@.drop_first());
        }
        unsigned_number_exec(s[0] == '-', &body)
    } else {
        unsigned_number_exec(false, s)
    }
}

fn digits_order_exec(a: &[char], b: &[char]) -> (r: i8)
    ensures
        r == digits_order(a@, b@),
        -1 <= r <= 1,
{
    let mut k: usize = 0;
    proof {
        assert(a@.skip(0) == a@);
        assert(b@.skip(0) == b@);
    }
    while k < a.len() && k < b.len() && a[k] == b[k]
        invariant
            k <= a.len(),
            k <= b.len(),
            digits_order(a@, b@) == digits_order(a@.skip(k as int), b@.skip(k as int)),
        decreases a.len() - k,
    {
        proof {
            assert(a@.skip(k as int).drop_first() == a@.skip(k + 1));
            assert(b@.skip(k as int).drop_first() == b@.skip(k + 1));
        }
        k = k + 1;
    }
    proof {
        assert(a@.skip(0) == a@);
        assert(b@.skip(0) == b@);
    }
    if k == a.len() && k == b.len() {
        0
    } else if k == a.len() {
        -1
    } else if k == b.len() {
        1
    } else if a[k] < b[k] {
        -1
    } else {
        1
    }
}

fn sign_of(n: &Number) -> (r: i8)
    ensures
        r == num_sign(n@),
{
    match n {
        Number::NaN => 0,
        Number::Inf(neg) => if *neg {
            -1
        } else {
            1
        },
        Number::Fin(neg, d, _) => if d.len() == 0 {
            0
        } else if *neg {
            -1
        } else {
            1
        },
    }
}

/// How `a` compares with `b`: -1, 0 or 1, or `None` when either is not a
/// number.
pub fn compare_numbers(a: &Number, b: &Number) -> (r: Option<i8>)
    ensures
        match r {
            Some(c) => num_order(a@, b@) == Some(c as int),
            None => num_order(a@, b@) is None,
        },
{
    match (a, b) {
        (Number::NaN, _) => None,
        (_, Number::NaN) => None,
        (Number::Inf(n1), Number::Inf(n2)) => Some(
            if *n1 == *n2 {
                0
            } else if *n1 {
                -1
            } else {
                1
            },
        ),
        (Number::Inf(n1), _) => Some(
            if *n1 {
                -1
            } else {
                1
            },
        ),
        (_, Number::Inf(n2)) => Some(
            if *n2 {
                1
            } else {
                -1
            },
        ),
        (Number::Fin(_, d1, p1), Number::Fin(_, d2, p2)) => {
            let s1 = sign_of(a);
            let s2 = sign_of(b);
            if s1 != s2 {
                Some(
                    if s1 < s2 {
                        -1
                    } else {
                        1
                    },
                )
            } else if s1 == 0 {
                Some(0)
            } else {
                let mag: i8 = if *p1 != *p2 {
                    if *p1 < *p2 {
                        -1
                    } else {
                        1
                    }
                } else {
                    digits_order_exec(d1, d2)
                };
                if s1 > 0 {
                    Some(mag)
                } else {
                    Some(0 - mag)
                }
            }
        },
    }
}

/// `n` with its sign flipped; zero and not-a-number stay as they are.
pub open spec fn negated(n: Num) -> Num {
    match n {
        Num::NaN => Num::NaN,
        Num::Inf(neg) => Num::Inf(!neg),
        Num::Fin(neg, d, p) => if d.len() == 0 {
            n
        } else {
            Num::Fin(!neg, d, p)
        },
    }
}

/// The opposite of an order.
pub open spec fn reversed(o: Option<int>) -> Option<int> {
    match o {
        Some(c) => Some(-c),
        None => None,
    }
}

/// Negating both numbers reverses their order: `-x < -y` exactly when
/// `y < x`, so of two negative numbers the one of larger magnitude is the
/// smaller. Every order is -1, 0 or 1, and swapping the operands reverses
/// it.
pub proof fn lemma_order_negation(a: Num, b: Num)
    ensures
        num_order(negated(a), negated(b)) == reversed(num_order(a, b)),
        num_order(b, a) == reversed(num_order(a, b)),
        num_order(a, b) matches Some(c) ==> -1 <= c <= 1,
{
    if let (Num::Fin(_, d1, _), Num::Fin(_, d2, _)) = (a, b) {
        lemma_digits_order_antisym(d1, d2);
    }
}

proof fn lemma_digits_order_antisym(x: Seq<char>, y: Seq<char>)
    ensures
        digits_order(y, x) == -digits_order(x, y),
        -1 <= digits_order(x, y) <= 1,
    decreases x.len(),
{
    if x.len() > 0 && y.len() > 0 && x[0] == y[0] {
        lemma_digits_order_antisym(x.drop_first(), y.drop_first());
    }
}

/// A minus sign before an unsigned number text gives the negated number:
/// `-t` reads as `t` negated, for every text `t` that does not start with a
/// sign.
pub proof fn lemma_minus_sign(t: Seq<char>)
    requires
        t.len() == 0 || (t[0] != '+' && t[0] != '-'),
    ensures
        number_of(seq!['-'] + t) == match number_of(t) {
            Some(n) => Some(negated(n)),
            None => None::<Num>,
        },
{
    let s = seq!['-'] + t;
    assert(s.drop_first() =~= t);
    assert(s[0] == '-');
}

/// `10^n`.
pub open spec fn pow10(n: nat) -> nat
    decreases n,
{
    if n == 0 {
        1
    } else {
        10 * pow10((n - 1) as nat)
    }
}

proof fn lemma_pow10_positive(n: nat)
    ensures
        pow10(n) >= 1,
    decreases n,
{
    if n > 0 {
        lemma_pow10_positive((n - 1) as nat);
    }
}

proof fn lemma_pow10_adds(a: nat, b: nat)
    ensures
        pow10(a + b) == pow10(a) * pow10(b),
    decreases a,
{
    if a > 0 {
        lemma_pow10_adds((a - 1) as nat, b);
        assert(pow10(a + b) == 10 * pow10((a - 1 + b) as nat));
        assert(pow10(a) == 10 * pow10((a - 1) as nat));
        assert(10 * (pow10((a - 1) as nat) * pow10(b)) == (10 * pow10((a - 1) as nat)) * pow10(b)) by (nonlinear_arith);
    } else {
        assert(a + b == b);
        assert(pow10(a) == 1);
        assert(1 * pow10(b) == pow10(b));
    }
}

proof fn lemma_pow10_le(a: nat, b: nat)
    requires
        a <= b,
    ensures
        pow10(a) <= pow10(b),
    decreases b,
{
    if a < b {
        lemma_pow10_le(a, (b - 1) as nat);
        lemma_pow10_positive((b - 1) as nat);
    }
}

/// The whole number the digits `d` write.
pub open spec fn digits_nat(d: Seq<char>) -> nat
    decreases d.len(),
{
    if d.len() == 0 {
        0
    } else {
        (digit_value(d[0]) * pow10((d.len() - 1) as nat) + digits_nat(d.drop_first())) as nat
    }
}

/// Every character of `d` is a digit.
pub open spec fn all_digits(d: Seq<char>) -> bool {
    forall|i: int| 0 <= i < d.len() ==> is_digit(#[trigger] d[i])
}

/// `-1`, `0` or `1` as `x` is below, at or above `y`.
pub open spec fn int_order(x: int, y: int) -> int {
    if x < y {
        -1
    } else if x == y {
        0
    } else {
        1
    }
}

proof fn lemma_digits_nat_bounds(d: Seq<char>)
    requires
        all_digits(d),
    ensures
        digits_nat(d) < pow10(d.len()),
        d.len() > 0 && d[0] != '0' ==> digits_nat(d) >= pow10((d.len() - 1) as nat),
        d.len() > 0 && d.last() != '0' ==> digits_nat(d) >= 1,
    decreases d.len(),
{
    if d.len() > 0 {
        let r = d.drop_first();
        assert(all_digits(r)) by {
            assert forall|i: int| 0 <= i < r.len() implies is_digit(#[trigger] r[i]) by {
                assert(r[i] == d[i + 1]);
            }
        }
        lemma_digits_nat_bounds(r);
        let v = digit_value(d[0]);
        let q = pow10((d.len() - 1) as nat);
        assert(is_digit(d[0]));
        assert(0 <= v <= 9);
        lemma_pow10_positive((d.len() - 1) as nat);
        assert(pow10(d.len()) == 10 * q);
        assert(v * q + q <= 10 * q) by (nonlinear_arith)
            requires
                v <= 9,
                q >= 1,
        ;
        assert(v * q >= 0) by (nonlinear_arith)
            requires
                v >= 0,
                q >= 1,
        ;
        if d[0] != '0' {
            assert(v >= 1);
            assert(v * q >= q) by (nonlinear_arith)
                requires
                    v >= 1,
                    q >= 1,
            ;
        }
        if d.last() != '0' && r.len() == 0 {
            assert(d.len() == 1);
            assert(d.last() == d[0]);
            assert(v >= 1);
            assert(v * q >= 1) by (nonlinear_arith)
                requires
                    v >= 1,
                    q >= 1,
            ;
        }
        if r.len() > 0 {
            assert(r.last() == d.last());
        }
    }
}

/// Digit strings compare, lexicographically, as the fractions `0.x` and
/// `0.y` they write: `x·10^|y|` against `y·10^|x|` as whole numbers.
proof fn lemma_digits_order_value(x: Seq<char>, y: Seq<char>)
    requires
        all_digits(x),
        all_digits(y),
        x.len() > 0 ==> x.last() != '0',
        y.len() > 0 ==> y.last() != '0',
    ensures
        digits_order(x, y) == int_order(
            (digits_nat(x) * pow10(y.len())) as int,
            (digits_nat(y) * pow10(x.len())) as int,
        ),
    decreases x.len(),
{
    lemma_digits_nat_bounds(x);
    lemma_digits_nat_bounds(y);
    if x.len() == 0 && y.len() == 0 {
    } else if x.len() == 0 {
        assert(pow10(0) == 1);
        assert(digits_nat(y) * 1 == digits_nat(y));
    } else if y.len() == 0 {
        assert(pow10(0) == 1);
        assert(digits_nat(x) * 1 == digits_nat(x));
    } else {
        let x1 = x.drop_first();
        let y1 = y.drop_first();
        assert(all_digits(x1)) by {
            assert forall|i: int| 0 <= i < x1.len() implies is_digit(#[trigger] x1[i]) by {
                assert(x1[i] == x[i + 1]);
            }
        }
        assert(all_digits(y1)) by {
            assert forall|i: int| 0 <= i < y1.len() implies is_digit(#[trigger] y1[i]) by {
                assert(y1[i] == y[i + 1]);
            }
        }
        if x1.len() > 0 {
            assert(x1.last() == x.last());
        }
        if y1.len() > 0 {
            assert(y1.last() == y.last());
        }
        lemma_digits_nat_bounds(x1);
        lemma_digits_nat_bounds(y1);
        let n1 = (x.len() + y.len() - 1) as nat;
        let big = pow10(n1);
        let xv = digit_value(x[0]);
        let yv = digit_value(y[0]);
        assert(is_digit(x[0]) && is_digit(y[0]));
        let px = pow10(x1.len());
        let py = pow10(y1.len());
        let ax = digits_nat(x1);
        let ay = digits_nat(y1);
        // x·10^|y| = xv·10^(n1) + x1·10^|y|, and likewise for y.
        lemma_pow10_adds(x1.len(), y.len());
        lemma_pow10_adds(y1.len(), x.len());
        assert(x1.len() + y.len() == n1);
        assert(y1.len() + x.len() == n1);
        assert(pow10(y.len()) == 10 * py);
        assert(pow10(x.len()) == 10 * px);
        lemma_pow10_positive(x1.len());
        lemma_pow10_positive(y1.len());
        let qy = pow10(y.len());
        let qx = pow10(x.len());
        assert(digits_nat(x) == xv * px + ax);
        assert(digits_nat(y) == yv * py + ay);
        assert(digits_nat(x) * qy == xv * big + ax * qy) by (nonlinear_arith)
            requires
                digits_nat(x) == xv * px + ax,
                big == px * qy,
        ;
        assert(digits_nat(y) * qx == yv * big + ay * qx) by (nonlinear_arith)
            requires
                digits_nat(y) == yv * py + ay,
                big == py * qx,
        ;
        // The tails stay below one unit of the first digit.
        assert(ax * qy < big) by (nonlinear_arith)
            requires
                ax < px,
                qy >= 1,
                big == px * qy,
        ;
        assert(ay * qx < big) by (nonlinear_arith)
            requires
                ay < py,
                qx >= 1,
                big == py * qx,
        ;
        assert(ax * qy >= 0 && ay * qx >= 0) by (nonlinear_arith)
            requires
                ax >= 0,
                ay >= 0,
                qy >= 1,
                qx >= 1,
        ;
        if x[0] < y[0] {
            assert(xv < yv);
            assert(xv * big + big <= yv * big) by (nonlinear_arith)
                requires
                    xv + 1 <= yv,
                    big >= 0,
            ;
        } else if x[0] > y[0] {
            assert(xv > yv);
            assert(yv * big + big <= xv * big) by (nonlinear_arith)
                requires
                    yv + 1 <= xv,
                    big >= 0,
            ;
        } else {
            lemma_digits_order_antisym(x, y);
            lemma_digits_order_value(x1, y1);
            assert(ax * qy == 10 * (ax * py)) by (nonlinear_arith)
                requires
                    qy == 10 * py,
            ;
            assert(ay * qx == 10 * (ay * px)) by (nonlinear_arith)
                requires
                    qx == 10 * px,
            ;
        }
    }
}

/// A finite number as reading gives it: digits only, none leading or
/// trailing zero, and zero without a sign.
pub open spec fn canonical(n: Num) -> bool {
    match n {
        Num::Fin(neg, d, _) => all_digits(d) && (d.len() > 0 ==> d[0] != '0' && d.last() != '0') && (
        d.len() == 0 ==> !neg),
        _ => true,
    }
}

/// The signed whole number a finite number's digits write.
pub open spec fn signed_digits(n: Num) -> int {
    match n {
        Num::Fin(neg, d, _) => if neg {
            -(digits_nat(d) as int)
        } else {
            digits_nat(d) as int
        },
        _ => 0,
    }
}

/// The place of a finite number's last digit: its value is
/// `signed_digits(n) · 10^unit_exp(n)`.
pub open spec fn unit_exp(n: Num) -> int {
    match n {
        Num::Fin(_, d, p) => p - d.len(),
        _ => 0,
    }
}

/// The value of `x` in units of the smaller of the last-digit places of
/// `x` and `y`, so that `x` and `y` compare as these whole numbers do.
pub open spec fn scaled(x: Num, y: Num) -> int {
    let m = if unit_exp(x) <= unit_exp(y) {
        unit_exp(x)
    } else {
        unit_exp(y)
    };
    signed_digits(x) * pow10((unit_exp(x) - m) as nat)
}

proof fn lemma_scale_order(x: int, y: int, c: int)
    requires
        c >= 1,
    ensures
        int_order(x * c, y * c) == int_order(x, y),
{
    if x < y {
        assert(x * c < y * c) by (nonlinear_arith)
            requires
                x < y,
                c >= 1,
        ;
    } else if x == y {
    } else {
        assert(x * c > y * c) by (nonlinear_arith)
            requires
                x > y,
                c >= 1,
        ;
    }
}

/// Magnitudes `0.d1·10^p1` and `0.d2·10^p2` of canonical digit strings
/// compare first by place, then by digits, and that is how the values
/// compare.
proof fn lemma_magnitude_order(d1: Seq<char>, p1: int, d2: Seq<char>, p2: int)
    requires
        all_digits(d1),
        all_digits(d2),
        d1.len() > 0,
        d2.len() > 0,
        d1[0] != '0',
        d2[0] != '0',
        d1.last() != '0',
        d2.last() != '0',
    ensures
        ({
            let e1 = p1 - d1.len();
            let e2 = p2 - d2.len();
            let m = if e1 <= e2 {
                e1
            } else {
                e2
            };
            let mag = if p1 != p2 {
                if p1 < p2 {
                    -1int
                } else {
                    1int
                }
            } else {
                digits_order(d1, d2)
            };
            mag == int_order(
                (digits_nat(d1) * pow10((e1 - m) as nat)) as int,
                (digits_nat(d2) * pow10((e2 - m) as nat)) as int,
            )
        }),
{
    let l1 = d1.len();
    let l2 = d2.len();
    let e1 = p1 - l1;
    let e2 = p2 - l2;
    let m = if e1 <= e2 {
        e1
    } else {
        e2
    };
    let a = digits_nat(d1);
    let b = digits_nat(d2);
    let s1 = (e1 - m) as nat;
    let s2 = (e2 - m) as nat;
    let x = a * pow10(s1);
    let y = b * pow10(s2);
    lemma_digits_nat_bounds(d1);
    lemma_digits_nat_bounds(d2);
    lemma_pow10_positive(s1);
    lemma_pow10_positive(s2);
    if p1 < p2 {
        // x < 10^(p1 - m) <= 10^(p2 - 1 - m) <= y
        let t1 = (p1 - m) as nat;
        let t2 = (p2 - 1 - m) as nat;
        lemma_pow10_adds(l1, s1);
        lemma_pow10_adds((l2 - 1) as nat, s2);
        assert(l1 + s1 == t1);
        assert((l2 - 1) as nat + s2 == t2);
        lemma_pow10_le(t1, t2);
        assert(x < pow10(l1) * pow10(s1)) by (nonlinear_arith)
            requires
                a < pow10(l1),
                pow10(s1) >= 1,
                x == a * pow10(s1),
        ;
        assert(y >= pow10((l2 - 1) as nat) * pow10(s2)) by (nonlinear_arith)
            requires
                b >= pow10((l2 - 1) as nat),
                pow10(s2) >= 1,
                y == b * pow10(s2),
        ;
    } else if p1 > p2 {
        let t2 = (p2 - m) as nat;
        let t1 = (p1 - 1 - m) as nat;
        lemma_pow10_adds(l2, s2);
        lemma_pow10_adds((l1 - 1) as nat, s1);
        assert(l2 + s2 == t2);
        assert((l1 - 1) as nat + s1 == t1);
        lemma_pow10_le(t2, t1);
        assert(y < pow10(l2) * pow10(s2)) by (nonlinear_arith)
            requires
                b < pow10(l2),
                pow10(s2) >= 1,
                y == b * pow10(s2),
        ;
        assert(x >= pow10((l1 - 1) as nat) * pow10(s1)) by (nonlinear_arith)
            requires
                a >= pow10((l1 - 1) as nat),
                pow10(s1) >= 1,
                x == a * pow10(s1),
        ;
    } else {
        lemma_digits_order_value(d1, d2);
        if l1 <= l2 {
            // x = a·10^(l2-l1), y = b; a·10^l2 = x·10^l1, b·10^l1 = y·10^l1.
            assert(s2 == 0);
            assert(s1 == l2 - l1);
            lemma_pow10_adds(s1, l1);
            assert(s1 + l1 == l2);
            assert(pow10(s2) == 1);
            assert(a * pow10(l2) == x * pow10(l1)) by (nonlinear_arith)
                requires
                    pow10(l2) == pow10(s1) * pow10(l1),
                    x == a * pow10(s1),
            ;
            assert(y == b) by (nonlinear_arith)
                requires
                    y == b * pow10(s2),
                    pow10(s2) == 1,
            ;
            lemma_pow10_positive(l1);
            lemma_scale_order(x as int, y as int, pow10(l1) as int);
        } else {
            assert(s1 == 0);
            assert(s2 == l1 - l2);
            lemma_pow10_adds(s2, l2);
            assert(s2 + l2 == l1);
            assert(pow10(s1) == 1);
            assert(b * pow10(l1) == y * pow10(l2)) by (nonlinear_arith)
                requires
                    pow10(l1) == pow10(s2) * pow10(l2),
                    y == b * pow10(s2),
            ;
            assert(x == a) by (nonlinear_arith)
                requires
                    x == a * pow10(s1),
                    pow10(s1) == 1,
            ;
            lemma_pow10_positive(l2);
            lemma_scale_order(x as int, y as int, pow10(l2) as int);
        }
    }
}

/// Numbers are ordered by their values: for finite numbers as reading
/// gives them, `num_order(a, b)` is -1, 0 or 1 exactly as the value of `a`
/// is below, equal to or above the value of `b` (both written as whole
/// numbers in units of the smaller last-digit place). So `-5 < -3`,
/// `-1 < 0.5`, `0.25 < 0.3` and `2e3 > 999`.
pub proof fn lemma_order_is_value_order(a: Num, b: Num)
    requires
        a is Fin,
        b is Fin,
        canonical(a),
        canonical(b),
    ensures
        num_order(a, b) == Some(int_order(scaled(a, b), scaled(b, a))),
{
    if let (Num::Fin(n1, d1, p1), Num::Fin(n2, d2, p2)) = (a, b) {
        let e1 = p1 - d1.len();
        let e2 = p2 - d2.len();
        let m = if e1 <= e2 {
            e1
        } else {
            e2
        };
        let s1 = (e1 - m) as nat;
        let s2 = (e2 - m) as nat;
        lemma_digits_nat_bounds(d1);
        lemma_digits_nat_bounds(d2);
        lemma_pow10_positive(s1);
        lemma_pow10_positive(s2);
        let x = digits_nat(d1) * pow10(s1);
        let y = digits_nat(d2) * pow10(s2);
        assert(scaled(b, a) == signed_digits(b) * pow10(s2));
        assert(scaled(a, b) == signed_digits(a) * pow10(s1));
        if d1.len() > 0 {
            assert(x >= 1) by (nonlinear_arith)
                requires
                    digits_nat(d1) >= 1,
                    pow10(s1) >= 1,
                    x == digits_nat(d1) * pow10(s1),
            ;
        } else {
            assert(digits_nat(d1) == 0);
            assert(x == 0);
        }
        if d2.len() > 0 {
            assert(y >= 1) by (nonlinear_arith)
                requires
                    digits_nat(d2) >= 1,
                    pow10(s2) >= 1,
                    y == digits_nat(d2) * pow10(s2),
            ;
        } else {
            assert(digits_nat(d2) == 0);
            assert(y == 0);
        }
        assert(scaled(a, b) == if n1 { -(x as int) } else { x as int }) by (nonlinear_arith)
            requires
                scaled(a, b) == signed_digits(a) * pow10(s1),
                signed_digits(a) == if n1 { -(digits_nat(d1) as int) } else { digits_nat(d1) as int },
                x == digits_nat(d1) * pow10(s1),
        ;
        assert(scaled(b, a) == if n2 { -(y as int) } else { y as int }) by (nonlinear_arith)
            requires
                scaled(b, a) == signed_digits(b) * pow10(s2),
                signed_digits(b) == if n2 { -(digits_nat(d2) as int) } else { digits_nat(d2) as int },
                y == digits_nat(d2) * pow10(s2),
        ;
        if d1.len() > 0 && d2.len() > 0 {
            lemma_magnitude_order(d1, p1, d2, p2);
        }
    }
}

proof fn lemma_leading_zeros(s: Seq<char>)
    ensures
        leading_zeros(s) <= s.len(),
        leading_zeros(s) < s.len() ==> s[leading_zeros(s) as int] != '0',
    decreases s.len(),
{
    if s.len() > 0 && s[0] == '0' {
        lemma_leading_zeros(s.drop_first());
        let z = leading_zeros(s.drop_first());
        if z < s.drop_first().len() {
            assert(s.drop_first()[z as int] == s[(z + 1) as int]);
        }
    }
}

proof fn lemma_strip_trailing_zeros(s: Seq<char>)
    ensures
        strip_trailing_zeros(s).len() <= s.len(),
        strip_trailing_zeros(s) == s.take(strip_trailing_zeros(s).len() as int),
        strip_trailing_zeros(s).len() > 0 ==> strip_trailing_zeros(s).last() != '0',
    decreases s.len(),
{
    if s.len() > 0 && s.last() == '0' {
        lemma_strip_trailing_zeros(s.drop_last());
        let r = strip_trailing_zeros(s.drop_last());
        assert(s.drop_last().take(r.len() as int) =~= s.take(r.len() as int));
    } else {
        assert(s.take(s.len() as int) =~= s);
    }
}

proof fn lemma_finite_canonical(neg: bool, i: Seq<char>, f: Seq<char>, e: int)
    requires
        all_digits(i),
        all_digits(f),
    ensures
        canonical(finite(neg, i, f, e)),
{
    let all = i + f;
    assert(all_digits(all)) by {
        assert forall|k: int| 0 <= k < all.len() implies is_digit(#[trigger] all[k]) by {
            if k < i.len() {
                assert(all[k] == i[k]);
            } else {
                assert(all[k] == f[k - i.len()]);
            }
        }
    }
    lemma_leading_zeros(all);
    let z = leading_zeros(all);
    let rest = all.skip(z as int);
    lemma_strip_trailing_zeros(rest);
    let d = strip_trailing_zeros(rest);
    assert(all_digits(d)) by {
        assert forall|k: int| 0 <= k < d.len() implies is_digit(#[trigger] d[k]) by {
            assert(d[k] == rest[k]);
            assert(rest[k] == all[k + z]);
        }
    }
    if d.len() > 0 {
        assert(d[0] == rest[0]);
        assert(rest[0] == all[z as int]);
    }
}

/// Every number read from text is as reading gives it: its digits have no
/// leading or trailing zero, and zero has no sign.
pub proof fn lemma_number_canonical(s: Seq<char>)
    ensures
        number_of(s) matches Some(n) ==> canonical(n),
{
    let (neg, body) = if s.len() > 0 && (s[0] == '+' || s[0] == '-') {
        (s[0] == '-', s.drop_first())
    } else {
        (false, s)
    };
    assert(number_of(s) == unsigned_number(neg, body));
    lemma_digit_run_end(body, 0);
    let a = digit_run_end(body, 0);
    let i = body.take(a);
    assert(all_digits(i)) by {
        assert forall|k: int| 0 <= k < i.len() implies is_digit(#[trigger] i[k]) by {
            assert(i[k] == body[k]);
        }
    }
    assert(all_digits(Seq::<char>::empty()));
    if a < body.len() && body[a] == '.' {
        lemma_digit_run_end(body, a + 1);
        let b = digit_run_end(body, a + 1);
        let f = body.subrange(a + 1, b);
        assert(all_digits(f)) by {
            assert forall|k: int| 0 <= k < f.len() implies is_digit(#[trigger] f[k]) by {
                assert(f[k] == body[a + 1 + k]);
            }
        }
        lemma_finite_canonical(neg, i, f, 0);
        assert forall|e: int| canonical(#[trigger] finite(neg, i, f, e)) by {
            lemma_finite_canonical(neg, i, f, e);
        }
    } else {
        assert forall|e: int| canonical(#[trigger] finite(neg, i, Seq::<char>::empty(), e)) by {
            lemma_finite_canonical(neg, i, Seq::<char>::empty(), e);
        }
    }
}

/// Two texts that read as finite numbers are ordered as the values they
/// write: `"-5"` before `"-3"`, `"0.25"` before `"0.3"`, `"2e3"` after
/// `"999"`.
pub proof fn lemma_text_order(s: Seq<char>, t: Seq<char>)
    ensures
        (number_of(s) is Some && number_of(s)->Some_0 is Fin && number_of(t) is Some
            && number_of(t)->Some_0 is Fin) ==> num_order(number_of(s)->Some_0, number_of(t)->Some_0) == Some(
            int_order(
                scaled(number_of(s)->Some_0, number_of(t)->Some_0),
                scaled(number_of(t)->Some_0, number_of(s)->Some_0),
            ),
        ),
{
    lemma_number_canonical(s);
    lemma_number_canonical(t);
    if let (Some(x), Some(y)) = (number_of(s), number_of(t)) {
        if x is Fin && y is Fin {
            lemma_order_is_value_order(x, y);
        }
    }
}

} // verus!
