//! Decimal reading and writing of counts, and the greatest common divisor.
use vstd::prelude::*;

verus! {

/// The greatest common divisor of `a` and `b`, with `gcd(a, 0) == a`.
pub open spec fn spec_gcd(a: nat, b: nat) -> nat
    decreases b,
{
    if b == 0 {
        a
    } else {
        spec_gcd(b, a % b)
    }
}

/// `d` divides `a`.
pub open spec fn divides(d: nat, a: nat) -> bool {
    exists|k: nat| a == #[trigger] (d * k)
}

/// Calls `num::integer::gcd` on two unsigned integers.
///
/// For unsigned types the crate computes the greatest common divisor by Stein's
/// binary algorithm and returns `m | n` when one of them is zero; the contract
/// states that this is the greatest common divisor, `spec_gcd`.
#[verifier::external_body]
pub(crate) fn gcd(a: usize, b: usize) -> (g: usize)
    ensures
        g == spec_gcd(a as nat, b as nat),
{
    num::integer::gcd(a, b)
}

proof fn lemma_divides_sum(d: nat, q: nat, b: nat, r: nat)
    requires
        divides(d, b),
        divides(d, r),
    ensures
        divides(d, q * b + r),
{
    let k1 = choose|k: nat| b == #[trigger] (d * k);
    let k2 = choose|k: nat| r == #[trigger] (d * k);
    let k: nat = q * k1 + k2;
    assert(q * b + r == d * k) by (nonlinear_arith)
        requires
            b == d * k1,
            r == d * k2,
            k == q * k1 + k2,
    ;
}

/// The greatest common divisor divides both of its arguments.
pub proof fn lemma_gcd_divides(a: nat, b: nat)
    ensures
        divides(spec_gcd(a, b), a),
        divides(spec_gcd(a, b), b),
    decreases b,
{
    if b == 0 {
        assert(a == a * 1);
        assert(0 == a * 0);
    } else {
        let g = spec_gcd(b, a % b);
        lemma_gcd_divides(b, a % b);
        vstd::arithmetic::div_mod::lemma_fundamental_div_mod(a as int, b as int);
        assert(a == (a / b) * b + a % b) by (nonlinear_arith)
            requires
                a as int == b * (a as int / b as int) + a as int % b as int,
                b > 0,
        ;
        lemma_divides_sum(g, a / b, b, a % b);
    }
}

/// Every common divisor of `a` and `b` divides their greatest common divisor:
/// `spec_gcd` is the greatest of the common divisors.
pub proof fn lemma_common_divisor_divides_gcd(d: nat, a: nat, b: nat)
    requires
        divides(d, a),
        divides(d, b),
    ensures
        divides(d, spec_gcd(a, b)),
    decreases b,
{
    if b > 0 {
        let k1 = choose|k: nat| a == #[trigger] (d * k);
        let k2 = choose|k: nat| b == #[trigger] (d * k);
        let q = a / b;
        let r = a % b;
        vstd::arithmetic::div_mod::lemma_fundamental_div_mod(a as int, b as int);
        assert(d > 0) by (nonlinear_arith)
            requires
                b == d * k2,
                b > 0,
        ;
        let k: int = k1 - q * k2;
        assert(r == d * k && k >= 0) by (nonlinear_arith)
            requires
                a == d * k1,
                b == d * k2,
                a as int == b * q + r,
                k == k1 - q * k2,
                r >= 0,
                d > 0,
        ;
        assert(r == d * (k as nat));
        lemma_common_divisor_divides_gcd(d, b, r);
    }
}

/// The greatest common divisor is positive when one of its arguments is.
pub proof fn lemma_gcd_positive(a: nat, b: nat)
    requires
        a > 0 || b > 0,
    ensures
        spec_gcd(a, b) > 0,
    decreases b,
{
    if b > 0 {
        lemma_gcd_positive(b, a % b);
    }
}

/// Divisibility is transitive.
pub proof fn lemma_divides_trans(a: nat, b: nat, c: nat)
    requires
        divides(a, b),
        divides(b, c),
    ensures
        divides(a, c),
{
    let k1 = choose|k: nat| b == #[trigger] (a * k);
    let k2 = choose|k: nat| c == #[trigger] (b * k);
    let k: nat = k1 * k2;
    assert(c == a * k) by (nonlinear_arith)
        requires
            b == a * k1,
            c == b * k2,
            k == k1 * k2,
    ;
}

/// A positive divisor leaves no remainder.
pub proof fn lemma_divides_mod(d: nat, a: nat)
    requires
        divides(d, a),
        d > 0,
    ensures
        a % d == 0,
{
    let k = choose|k: nat| a == #[trigger] (d * k);
    vstd::arithmetic::div_mod::lemma_mod_multiples_basic(k as int, d as int);
    assert(k * d == d * k) by (nonlinear_arith);
}

/// The number of characters that `n.to_string()` has: its decimal digits.
pub open spec fn decimal_len(n: nat) -> nat
    decreases n,
{
    if n < 10 {
        1
    } else {
        1 + decimal_len(n / 10)
    }
}

/// The number of decimal digits of `n`, as `n.to_string().len()` counts them.
pub fn decimal_width(n: usize) -> (w: usize)
    ensures
        w == decimal_len(n as nat),
        1 <= w <= 20,
{
    proof {
        lemma_decimal_len_of_usize(n);
    }
    let mut rest: usize = n;
    let mut w: usize = 1;
    while rest >= 10
        invariant
            1 <= w,
            w + decimal_len(rest as nat) == decimal_len(n as nat) + 1,
            decimal_len(n as nat) <= 20,
        decreases rest,
    {
        rest = rest / 10;
        w = w + 1;
    }
    w
}

spec fn pow10(k: nat) -> nat
    decreases k,
{
    if k == 0 {
        1
    } else {
        10 * pow10((k - 1) as nat)
    }
}

proof fn lemma_decimal_len_le(n: nat, k: nat)
    requires
        n < pow10(k),
        k >= 1,
    ensures
        decimal_len(n) <= k,
    decreases k,
{
    if n >= 10 {
        if k == 1 {
            assert(pow10(1) == 10 * pow10(0));
        } else {
            let p = pow10((k - 1) as nat);
            assert(n / 10 < p) by (nonlinear_arith)
                requires
                    n < 10 * p,
            ;
            lemma_decimal_len_le(n / 10, (k - 1) as nat);
        }
    }
}

proof fn lemma_decimal_len_of_usize(n: usize)
    ensures
        1 <= decimal_len(n as nat) <= 20,
{
    reveal_with_fuel(pow10, 21);
    assert(pow10(20) == 100000000000000000000nat);
    lemma_decimal_len_le(n as nat, 20);
}

/// An ASCII decimal digit.
pub open spec fn is_digit(b: u8) -> bool {
    48 <= b <= 57
}

/// Every byte of `s` is a decimal digit.
pub open spec fn all_digits(s: Seq<u8>) -> bool {
    forall|i: int| 0 <= i < s.len() ==> is_digit(#[trigger] s[i])
}

/// The number that the decimal digits `s` write, most significant first.
pub open spec fn digits_value(s: Seq<u8>) -> nat
    decreases s.len(),
{
    if s.len() == 0 {
        0
    } else {
        10 * digits_value(s.drop_last()) + (s.last() - 48) as nat
    }
}

/// What is left of a number's text once one leading `+`, if there is one, is taken off.
pub open spec fn unsigned_body(s: Seq<u8>) -> Seq<u8> {
    if s.len() > 0 && s[0] == 43 {
        s.drop_first()
    } else {
        s
    }
}

/// How `str::parse::<usize>` reads a text: an optional `+`, then at least one
/// decimal digit and nothing else, naming a number that fits in a `usize`.
pub open spec fn spec_parse_count(s: Seq<u8>) -> Option<nat> {
    let body = unsigned_body(s);
    if body.len() > 0 && all_digits(body) && digits_value(body) <= usize::MAX {
        Some(digits_value(body))
    } else {
        None
    }
}

proof fn lemma_digits_value_prefix(s: Seq<u8>, k: int)
    requires
        0 <= k <= s.len(),
        all_digits(s),
    ensures
        digits_value(s.take(k)) <= digits_value(s),
    decreases s.len(),
{
    if k < s.len() {
        assert(s.drop_last().take(k) =~= s.take(k));
        lemma_digits_value_prefix(s.drop_last(), k);
    } else {
        assert(s.take(k) =~= s);
    }
}

/// Reads a count typed by the user, as `str::parse::<usize>` does on the bytes
/// of the text.
pub fn parse_count(s: &[u8]) -> (r: Option<usize>)
    ensures
        match r {
            Some(v) => spec_parse_count(s@) == Some(v as nat),
            None => spec_parse_count(s@) is None,
        },
{
    let len = s.len();
    let start: usize = if len > 0 && s[0] == 43u8 { 1 } else { 0 };
    let ghost body = unsigned_body(s@);
    assert(body =~= s@.subrange(start as int, len as int));
    if start == len {
        return None;
    }
    let mut acc: usize = 0;
    let mut i: usize = start;
    while i < len
        invariant
            start <= i <= len,
            len == s@.len(),
            body == s@.subrange(start as int, len as int),
            body == unsigned_body(s@),
            body.len() > 0,
            all_digits(body.take(i - start)),
            acc as nat == digits_value(body.take(i - start)),
        decreases len - i,
    {
        let b = s[i];
        assert(body[i - start] == b);
        if b < 48u8 || b > 57u8 {
            assert(!is_digit(body[i - start]));
            return None;
        }
        let ghost next = body.take(i - start + 1);
        assert(next.drop_last() =~= body.take(i - start));
        assert(all_digits(next));
        let d: usize = (b - 48u8) as usize;
        assert(digits_value(next) == 10 * acc + d);
        match acc.checked_mul(10) {
            Some(m) => match m.checked_add(d) {
                Some(v) => {
                    acc = v;
                },
                None => {
                    proof {
                        if all_digits(body) {
                            lemma_digits_value_prefix(body, i - start + 1);
                        }
                    }
                    return None;
                },
            },
            None => {
                proof {
                    if all_digits(body) {
                        lemma_digits_value_prefix(body, i - start + 1);
                    }
                }
                return None;
            },
        }
        i = i + 1;
    }
    assert(body.take(len - start) =~= body);
    Some(acc)
}

} // verus!
