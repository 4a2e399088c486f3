//! Decimal text on one side, factor lists on the other: parsing a decimal
//! numeral into a normalized factorization, and rendering a factorization
//! back to its decimal numeral.

use vstd::arithmetic::div_mod::lemma_fundamental_div_mod;
use vstd::arithmetic::div_mod::lemma_mod_multiples_basic;
use vstd::arithmetic::power::lemma_pow_increases;
use vstd::arithmetic::power::lemma_pow_positive;
use vstd::arithmetic::power::pow;
use vstd::arithmetic::power2::lemma2_to64;
use vstd::arithmetic::power2::lemma_pow2;
use vstd::prelude::*;

use crate::registers::facs;
use crate::registers::is_prime;
use crate::registers::wf_factors;
use crate::registers::Registers;

verus! {

/// The integer a factor list stands for: the product of its prime powers.
pub open spec fn value_of(s: Seq<(int, int)>) -> int
    decreases s.len(),
{
    if s.len() == 0 {
        1
    } else {
        pow(s[0].0, s[0].1 as nat) * value_of(s.drop_first())
    }
}

/// Why parsing a register value can fail.
#[derive(Debug, PartialEq, Eq, Structural, Clone, Copy)]
pub enum RegisterParseError {
    /// The text is empty or holds a non-digit character.
    Malformed,
    /// The numeral does not fit the native register width.
    NumberOverflow,
    /// Zero is not a representable register value.
    Zero,
}

pub open spec fn is_digit(c: char) -> bool {
    48 <= c as int <= 57
}

pub open spec fn digit_val(c: char) -> int {
    c as int - 48
}

pub open spec fn all_digits(s: Seq<char>) -> bool {
    forall|i: int| 0 <= i < s.len() ==> is_digit(#[trigger] s[i])
}

/// The value of a digit string, most significant digit first.
pub open spec fn digits_value(s: Seq<char>) -> int
    decreases s.len(),
{
    if s.len() == 0 {
        0
    } else {
        digits_value(s.drop_last()) * 10 + digit_val(s.last())
    }
}

pub proof fn lemma_value_push(s: Seq<(int, int)>, x: (int, int))
    ensures
        value_of(s.push(x)) == value_of(s) * pow(x.0, x.1 as nat),
    decreases s.len(),
{
    if s.len() == 0 {
        assert(value_of(Seq::<(int, int)>::empty()) == 1);
        assert(s.push(x).drop_first() =~= Seq::<(int, int)>::empty());
        assert(s.push(x)[0] == x);
        assert(value_of(s.push(x)) == pow(x.0, x.1 as nat) * value_of(s.push(x).drop_first()));
        assert(value_of(s.push(x)) == pow(x.0, x.1 as nat) * 1);
        assert(value_of(s) == 1);
    } else {
        assert(s.push(x).drop_first() =~= s.drop_first().push(x));
        lemma_value_push(s.drop_first(), x);
        assert(s.push(x)[0] == s[0]);
        assert(value_of(s.push(x)) == pow(s[0].0, s[0].1 as nat) * (value_of(s.drop_first()) * pow(
            x.0,
            x.1 as nat,
        )));
        assert(pow(s[0].0, s[0].1 as nat) * (value_of(s.drop_first()) * pow(x.0, x.1 as nat)) == (
        pow(s[0].0, s[0].1 as nat) * value_of(s.drop_first())) * pow(x.0, x.1 as nat))
            by (nonlinear_arith);
        assert(value_of(s) == pow(s[0].0, s[0].1 as nat) * value_of(s.drop_first()));
    }
}

/// Every factor list over positive bases stands for a value of at least 1:
/// zero is not representable.
pub proof fn lemma_value_pos(s: Seq<(int, int)>)
    requires
        forall|i: int| 0 <= i < s.len() ==> (#[trigger] s[i]).0 >= 1,
    ensures
        value_of(s) >= 1,
    decreases s.len(),
{
    if s.len() > 0 {
        assert(forall|i: int|
            0 <= i < s.drop_first().len() ==> (#[trigger] s.drop_first()[i]).0 >= 1);
        lemma_value_pos(s.drop_first());
        lemma_pow_positive(s[0].0, s[0].1 as nat);
        assert(pow(s[0].0, s[0].1 as nat) * value_of(s.drop_first()) >= 1) by (nonlinear_arith)
            requires
                pow(s[0].0, s[0].1 as nat) >= 1,
                value_of(s.drop_first()) >= 1,
        ;
    }
}

proof fn lemma_mod_mul_vanish(a: int, b: int, k: int)
    requires
        k >= 1,
        a % k == 0,
    ensures
        (a * b) % k == 0,
{
    lemma_fundamental_div_mod(a, k);
    assert(a == k * (a / k));
    assert(a * b == ((a / k) * b) * k) by (nonlinear_arith)
        requires
            a == k * (a / k),
    ;
    lemma_mod_multiples_basic((a / k) * b, k);
}

proof fn lemma_pow_base_mono(a: int, b: int, e: nat)
    requires
        1 <= a <= b,
    ensures
        pow(a, e) <= pow(b, e),
    decreases e,
{
    reveal(pow);
    if e == 0 {
        assert(pow(a, 0) == 1);
        assert(pow(b, 0) == 1);
    } else {
        assert(pow(a, e) == a * pow(a, (e - 1) as nat));
        assert(pow(b, e) == b * pow(b, (e - 1) as nat));
        lemma_pow_base_mono(a, b, (e - 1) as nat);
        lemma_pow_positive(a, (e - 1) as nat);
        lemma_pow_positive(b, (e - 1) as nat);
        assert(a * pow(a, (e - 1) as nat) <= b * pow(b, (e - 1) as nat)) by (nonlinear_arith)
            requires
                1 <= a <= b,
                1 <= pow(a, (e - 1) as nat),
                pow(a, (e - 1) as nat) <= pow(b, (e - 1) as nat),
        ;
    }
}

proof fn lemma_digits_concat(t: Seq<char>, u: Seq<char>)
    ensures
        digits_value(t + u) == digits_value(t) * pow(10, u.len()) + digits_value(u),
    decreases u.len(),
{
    reveal(pow);
    if u.len() == 0 {
        assert(t + u =~= t);
        assert(pow(10, 0) == 1);
    } else {
        assert((t + u).drop_last() =~= t + u.drop_last());
        assert((t + u).last() == u.last());
        lemma_digits_concat(t, u.drop_last());
        assert(pow(10, u.len()) == 10 * pow(10, (u.len() - 1) as nat));
        assert((digits_value(t) * pow(10, (u.len() - 1) as nat) + digits_value(u.drop_last())) * 10
            + digit_val(u.last()) == digits_value(t) * (10 * pow(10, (u.len() - 1) as nat)) + (
        digits_value(u.drop_last()) * 10 + digit_val(u.last()))) by (nonlinear_arith);
    }
}

proof fn lemma_digits_nonneg(s: Seq<char>)
    requires
        all_digits(s),
    ensures
        digits_value(s) >= 0,
    decreases s.len(),
{
    if s.len() > 0 {
        assert(all_digits(s.drop_last())) by {
            assert(forall|i: int| 0 <= i < s.drop_last().len() ==> s.drop_last()[i] == s[i]);
        }
        lemma_digits_nonneg(s.drop_last());
        assert(is_digit(s.last()));
    }
}

impl Registers {
    /// The factorization of `n`, found by trial division.
    pub fn factorize(n: u64) -> (r: Registers)
        requires
            n >= 1,
        ensures
            r.wf(),
            value_of(r@) == n as int,
    {
        let mut acc: Vec<(u64, u32)> = Vec::new();
        let mut m: u64 = n;
        let mut d: u64 = 2;
        proof {
            assert(facs(acc@) =~= Seq::<(int, int)>::empty());
        }
        while d <= m / d
            invariant
                1 <= m <= u64::MAX,
                d >= 2,
                value_of(facs(acc@)) * (m as int) == n as int,
                forall|k: int| 2 <= k < d ==> #[trigger] ((m as int) % k) != 0,
                forall|i: int| 0 <= i < acc@.len() ==> (#[trigger] acc@[i]).0 < d,
                wf_factors(facs(acc@)),
            decreases (if d as int <= m as int {
                m as int - d as int
            } else {
                0int
            }),
        {
            let ghost m_top = m as int;
            proof {
                // the loop condition bounds d * d by m
                lemma_fundamental_div_mod(m_top, d as int);
                assert(d as int * (d as int) <= m_top) by (nonlinear_arith)
                    requires
                        d as int <= m_top / (d as int),
                        m_top == d as int * (m_top / (d as int)) + m_top % (d as int),
                        m_top % (d as int) >= 0,
                        d >= 2,
                ;
                assert(d < u64::MAX) by (nonlinear_arith)
                    requires
                        d as int * (d as int) <= u64::MAX as int,
                        d >= 2,
                ;
                assert((d as int) < m_top) by (nonlinear_arith)
                    requires
                        d as int * (d as int) <= m_top,
                        d >= 2,
                ;
            }
            if m % d == 0 {
                let ghost m_entry = m as int;
                proof {
                    assert(m_entry % (d as int) == 0);
                }
                let mut e: u32 = 0;
                proof {
                    reveal(pow);
                    assert(pow(d as int, 0) == 1);
                    assert(pow(d as int, 0) * (m as int) == m_entry);
                }
                while m % d == 0
                    invariant
                        1 <= m <= u64::MAX,
                        d >= 2,
                        e < 64,
                        m_entry <= u64::MAX,
                        m_entry % (d as int) == 0,
                        pow(d as int, e as nat) * (m as int) == m_entry,
                    decreases m,
                {
                    proof {
                        reveal(pow);
                        lemma_fundamental_div_mod(m as int, d as int);
                        assert(m as int == d as int * ((m / d) as int));
                        assert(pow(d as int, (e + 1) as nat) == d as int * pow(d as int, e as nat));
                        lemma_pow_positive(d as int, e as nat);
                        assert(pow(d as int, (e + 1) as nat) * ((m / d) as int) == m_entry)
                            by (nonlinear_arith)
                            requires
                                m as int == d as int * ((m / d) as int),
                                pow(d as int, (e + 1) as nat) == d as int * pow(d as int, e as nat),
                                pow(d as int, e as nat) * (m as int) == m_entry,
                        ;
                        assert((m / d) as int >= 1) by (nonlinear_arith)
                            requires
                                m as int == d as int * ((m / d) as int),
                                m >= 1,
                                d >= 2,
                        ;
                        assert(((m / d) as int) < (m as int)) by (nonlinear_arith)
                            requires
                                m as int == d as int * ((m / d) as int),
                                (m / d) as int >= 1,
                                d >= 2,
                        ;
                        // the exponent cannot reach 64: d^(e+1) would exceed u64
                        if e + 1 >= 64 {
                            lemma_pow_positive(d as int, (e + 1) as nat);
                            assert(pow(d as int, (e + 1) as nat) <= m_entry) by (nonlinear_arith)
                                requires
                                    pow(d as int, (e + 1) as nat) * ((m / d) as int) == m_entry,
                                    (m / d) as int >= 1,
                                    pow(d as int, (e + 1) as nat) >= 1,
                            ;
                            lemma_pow_increases(2, 64, (e + 1) as nat);
                            lemma_pow_base_mono(2, d as int, (e + 1) as nat);
                            lemma_pow2(64);
                            lemma2_to64();
                            assert(pow(2, 64) == 0x10000000000000000);
                            assert(false);
                        }
                    }
                    m = m / d;
                    e = e + 1;
                }
                proof {
                    reveal(pow);
                    // the loop ran at least once
                    assert(e >= 1) by {
                        if e == 0 {
                            assert(pow(d as int, 0) == 1);
                            assert(m as int == m_entry);
                            assert(false);
                        }
                    }
                    // d is prime: a smaller divisor of d would divide m_entry
                    assert forall|c: int| 2 <= c < d implies #[trigger] ((d as int) % c) != 0 by {
                        if (d as int) % c == 0 {
                            assert(pow(d as int, e as nat) == d as int * pow(
                                d as int,
                                (e - 1) as nat,
                            ));
                            lemma_mod_mul_vanish(d as int, pow(d as int, (e - 1) as nat), c);
                            lemma_mod_mul_vanish(pow(d as int, e as nat), m as int, c);
                            assert(m_entry % c == 0);
                        }
                    }
                    assert(is_prime(d as int));
                    // m shrank strictly, so the outer loop measure decreases
                    assert(pow(d as int, e as nat) >= 2) by {
                        assert(pow(d as int, e as nat) == d as int * pow(d as int, (e - 1) as nat));
                        lemma_pow_positive(d as int, (e - 1) as nat);
                        assert(d as int * pow(d as int, (e - 1) as nat) >= 2) by (nonlinear_arith)
                            requires
                                d >= 2,
                                pow(d as int, (e - 1) as nat) >= 1,
                        ;
                    }
                    assert((m as int) < m_entry) by (nonlinear_arith)
                        requires
                            pow(d as int, e as nat) * (m as int) == m_entry,
                            pow(d as int, e as nat) >= 2,
                            m >= 1,
                    ;
                    // the reduced m still has no divisor in [2, d], since any
                    // such divisor would divide m_entry
                    assert forall|k: int| 2 <= k < d as int + 1 implies #[trigger] ((m as int) % k) != 0 by {
                        if k < d as int {
                            if (m as int) % k == 0 {
                                lemma_mod_mul_vanish(m as int, pow(d as int, e as nat), k);
                                assert((m as int) * pow(d as int, e as nat) == m_entry)
                                    by (nonlinear_arith)
                                    requires
                                        pow(d as int, e as nat) * (m as int) == m_entry,
                                ;
                                assert(m_entry % k == 0);
                            }
                        }
                    }
                    // pushing (d, e) keeps the factor list normalized and
                    // keeps the running product equal to n
                    let old_facs = facs(acc@);
                    let x = (d as int, e as int);
                    assert(facs(acc@.push((d, e))) =~= old_facs.push(x));
                    lemma_value_push(old_facs, x);
                    assert(value_of(old_facs.push(x)) * (m as int) == n as int)
                        by (nonlinear_arith)
                        requires
                            value_of(old_facs.push(x)) == value_of(old_facs) * pow(
                                d as int,
                                e as nat,
                            ),
                            value_of(old_facs) * m_entry == n as int,
                            pow(d as int, e as nat) * (m as int) == m_entry,
                    ;
                    assert(wf_factors(old_facs.push(x))) by {
                        let t = old_facs.push(x);
                        assert(forall|i: int|
                            0 <= i < old_facs.len() ==> #[trigger] t[i] == old_facs[i]);
                        assert(t[old_facs.len() as int] == x);
                        assert(forall|i: int|
                            0 <= i < old_facs.len() ==> (#[trigger] old_facs[i]).0 < d as int);
                        assert(forall|i: int, j: int|
                            0 <= i < j < t.len() ==> (#[trigger] t[i]).0 < (#[trigger] t[j]).0);
                        assert(forall|i: int| 0 <= i < t.len() ==> (#[trigger] t[i]).1 >= 1);
                        assert(forall|i: int| 0 <= i < t.len() ==> is_prime((#[trigger] t[i]).0));
                    }
                }
                acc.push((d, e));
            }
            proof {
                assert(forall|k: int| 2 <= k < d as int + 1 ==> #[trigger] ((m as int) % k) != 0);
            }
            d = d + 1;
        }
        if m > 1 {
            proof {
                reveal(pow);
                // m < d * d and m has no divisor below d, so m is prime
                lemma_fundamental_div_mod(m as int, d as int);
                assert(d as int * (d as int) > m as int) by (nonlinear_arith)
                    requires
                        m as int / (d as int) < d as int,
                        m as int == d as int * (m as int / (d as int)) + (m as int) % (d as int),
                        (m as int) % (d as int) < d as int,
                        d >= 2,
                ;
                assert forall|c: int| 2 <= c < m implies #[trigger] ((m as int) % c) != 0 by {
                    if (m as int) % c == 0 {
                        lemma_fundamental_div_mod(m as int, c);
                        let t = m as int / c;
                        assert(m as int == c * t);
                        assert(t >= 2) by (nonlinear_arith)
                            requires
                                m as int == c * t,
                                2 <= c < m as int,
                                m >= 2,
                        ;
                        assert(t < m as int) by (nonlinear_arith)
                            requires
                                m as int == c * t,
                                2 <= c,
                                t >= 1,
                        ;
                        assert((m as int) % t == 0) by {
                            lemma_mod_multiples_basic(c, t);
                            assert(c * t == t * c) by (nonlinear_arith);
                        }
                        assert(c >= d as int);
                        assert(t >= d as int);
                        assert(c * t >= d as int * (d as int)) by (nonlinear_arith)
                            requires
                                c >= d as int,
                                t >= d as int,
                                d >= 2,
                        ;
                        assert(false);
                    }
                }
                assert(is_prime(m as int));
                // m exceeds every stored prime
                assert(m as int >= d as int) by {
                    if m < d {
                        assert((m as int) % (m as int) != 0);
                        lemma_mod_multiples_basic(1, m as int);
                        assert((1 * (m as int)) % (m as int) == 0);
                        assert(1 * (m as int) == m as int) by (nonlinear_arith);
                        assert(false);
                    }
                }
                let old_facs = facs(acc@);
                let x = (m as int, 1int);
                assert(facs(acc@.push((m, 1u32))) =~= old_facs.push(x));
                lemma_value_push(old_facs, x);
                vstd::arithmetic::power::lemma_pow1(m as int);
                assert(pow(m as int, 1) == m as int);
                assert(value_of(old_facs.push(x)) * 1int == n as int) by (nonlinear_arith)
                    requires
                        value_of(old_facs.push(x)) == value_of(old_facs) * (m as int),
                        value_of(old_facs) * (m as int) == n as int,
                ;
                assert(wf_factors(old_facs.push(x))) by {
                    let t = old_facs.push(x);
                    assert(forall|i: int|
                        0 <= i < old_facs.len() ==> #[trigger] t[i] == old_facs[i]);
                    assert(t[old_facs.len() as int] == x);
                    assert(forall|i: int|
                        0 <= i < old_facs.len() ==> (#[trigger] old_facs[i]).0 < d as int);
                    assert(forall|i: int, j: int|
                        0 <= i < j < t.len() ==> (#[trigger] t[i]).0 < (#[trigger] t[j]).0);
                    assert(forall|i: int| 0 <= i < t.len() ==> (#[trigger] t[i]).1 >= 1);
                    assert(forall|i: int| 0 <= i < t.len() ==> is_prime((#[trigger] t[i]).0));
                }
            }
            acc.push((m, 1));
            let r = Registers(acc);
            return r;
        }
        let r = Registers(acc);
        proof {
            assert(m == 1);
        }
        r
    }

    /// Parses a decimal numeral into its factorization. Fails on empty or
    /// non-digit text, on numerals above the native register width, and on
    /// zero, which no factor list represents.
    pub fn parse(text: &str) -> (r: Result<Registers, RegisterParseError>)
        ensures
            match r {
                Ok(reg) => {
                    &&& text@.len() > 0
                    &&& all_digits(text@)
                    &&& 1 <= digits_value(text@) <= u64::MAX
                    &&& reg.wf()
                    &&& value_of(reg@) == digits_value(text@)
                },
                Err(RegisterParseError::Malformed) => text@.len() == 0 || !all_digits(text@),
                Err(RegisterParseError::NumberOverflow) => {
                    &&& all_digits(text@)
                    &&& digits_value(text@) > u64::MAX
                },
                Err(RegisterParseError::Zero) => {
                    &&& text@.len() > 0
                    &&& all_digits(text@)
                    &&& digits_value(text@) == 0
                },
            },
    {
        let n = text.unicode_len();
        if n == 0 {
            return Err(RegisterParseError::Malformed);
        }
        let mut acc: u64 = 0;
        let mut i: usize = 0;
        proof {
            assert(text@.subrange(0, 0) =~= Seq::<char>::empty());
        }
        while i < n
            invariant
                n == text@.len(),
                i <= n,
                all_digits(text@.subrange(0, i as int)),
                acc as int == digits_value(text@.subrange(0, i as int)),
            decreases n - i,
        {
            let c = text.get_char(i);
            let u = c as u32;
            if u < 48 || u > 57 {
                proof {
                    assert(text@[i as int] == c);
                    assert(!is_digit(text@[i as int]));
                }
                return Err(RegisterParseError::Malformed);
            }
            let dnum: u64 = (u - 48) as u64;
            let ghost pre = text@.subrange(0, i as int);
            let ghost pre1 = text@.subrange(0, i + 1 as int);
            proof {
                assert(pre1.drop_last() =~= pre);
                assert(pre1.last() == text@[i as int]);
                assert(digits_value(pre1) == digits_value(pre) * 10 + digit_val(text@[i as int]));
                assert(all_digits(pre1)) by {
                    assert(forall|k: int| 0 <= k < pre.len() ==> pre1[k] == pre[k]);
                    assert(pre1[i as int] == text@[i as int]);
                }
            }
            let t: u128 = acc as u128 * 10 + dnum as u128;
            if t > u64::MAX as u128 {
                proof {
                    assert(digits_value(pre1) > u64::MAX);
                }
                // scan the rest: non-digits still make the text malformed
                let mut j: usize = i + 1;
                while j < n
                    invariant
                        n == text@.len(),
                        i + 1 <= j <= n,
                        pre1 == text@.subrange(0, i + 1 as int),
                        digits_value(pre1) > u64::MAX,
                        all_digits(text@.subrange(0, j as int)),
                    decreases n - j,
                {
                    let c2 = text.get_char(j);
                    let u2 = c2 as u32;
                    if u2 < 48 || u2 > 57 {
                        proof {
                            assert(text@[j as int] == c2);
                            assert(!is_digit(text@[j as int]));
                        }
                        return Err(RegisterParseError::Malformed);
                    }
                    proof {
                        let prej = text@.subrange(0, j as int);
                        let prej1 = text@.subrange(0, j + 1 as int);
                        assert(forall|k: int| 0 <= k < prej.len() ==> prej1[k] == prej[k]);
                        assert(prej1[j as int] == text@[j as int]);
                        assert(all_digits(prej1));
                    }
                    j += 1;
                }
                proof {
                    assert(text@.subrange(0, n as int) =~= text@);
                    assert(all_digits(text@));
                    let rest = text@.subrange(i + 1 as int, n as int);
                    assert(text@ =~= pre1 + rest);
                    lemma_digits_concat(pre1, rest);
                    assert(all_digits(rest)) by {
                        assert(forall|k: int|
                            0 <= k < rest.len() ==> rest[k] == text@[i + 1 + k]);
                    }
                    lemma_digits_nonneg(rest);
                    lemma_pow_positive(10, rest.len());
                    assert(digits_value(pre1) * pow(10, rest.len()) >= digits_value(pre1))
                        by (nonlinear_arith)
                        requires
                            digits_value(pre1) > 0,
                            pow(10, rest.len()) >= 1,
                    ;
                    assert(digits_value(text@) > u64::MAX);
                }
                return Err(RegisterParseError::NumberOverflow);
            }
            acc = t as u64;
            i += 1;
        }
        proof {
            assert(text@.subrange(0, n as int) =~= text@);
        }
        if acc == 0 {
            return Err(RegisterParseError::Zero);
        }
        Ok(Registers::factorize(acc))
    }
}


/// The canonical character for one decimal digit.
pub open spec fn digit_char(d: int) -> char {
    if d == 0 {
        '0'
    } else if d == 1 {
        '1'
    } else if d == 2 {
        '2'
    } else if d == 3 {
        '3'
    } else if d == 4 {
        '4'
    } else if d == 5 {
        '5'
    } else if d == 6 {
        '6'
    } else if d == 7 {
        '7'
    } else if d == 8 {
        '8'
    } else {
        '9'
    }
}

/// The canonical decimal rendering of a nonnegative integer, most
/// significant digit first and without leading zeros.
pub open spec fn dec_str(n: int) -> Seq<char>
    decreases n,
{
    if n < 10 {
        seq![digit_char(n)]
    } else {
        dec_str(n / 10).push(digit_char(n % 10))
    }
}

/// The value of a little-endian sequence of decimal digits.
pub open spec fn le_digits_value(s: Seq<u8>) -> int
    decreases s.len(),
{
    if s.len() == 0 {
        0
    } else {
        s[0] + 10 * le_digits_value(s.drop_first())
    }
}

pub open spec fn le_digits_ok(s: Seq<u8>) -> bool {
    forall|i: int| 0 <= i < s.len() ==> (#[trigger] s[i]) < 10
}

proof fn lemma_le_push(s: Seq<u8>, x: u8)
    ensures
        le_digits_value(s.push(x)) == le_digits_value(s) + x * pow(10, s.len()),
    decreases s.len(),
{
    reveal(pow);
    if s.len() == 0 {
        assert(s.push(x).drop_first() =~= Seq::<u8>::empty());
        assert(s.push(x)[0] == x);
        assert(le_digits_value(Seq::<u8>::empty()) == 0);
        assert(pow(10, 0) == 1);
    } else {
        assert(s.push(x).drop_first() =~= s.drop_first().push(x));
        lemma_le_push(s.drop_first(), x);
        assert(s.push(x)[0] == s[0]);
        assert(pow(10, s.len()) == 10 * pow(10, (s.len() - 1) as nat));
        assert(s[0] + 10 * (le_digits_value(s.drop_first()) + x * pow(10, (s.len() - 1) as nat))
            == s[0] + 10 * le_digits_value(s.drop_first()) + x * (10 * pow(
            10,
            (s.len() - 1) as nat,
        ))) by (nonlinear_arith);
    }
}

proof fn lemma_le_nonneg(s: Seq<u8>)
    ensures
        le_digits_value(s) >= 0,
    decreases s.len(),
{
    if s.len() > 0 {
        lemma_le_nonneg(s.drop_first());
    }
}

proof fn lemma_le_pos(s: Seq<u8>)
    requires
        s.len() > 0,
        s.last() >= 1,
    ensures
        le_digits_value(s) >= 1,
    decreases s.len(),
{
    if s.len() == 1 {
        assert(s[0] == s.last());
        assert(s.drop_first() =~= Seq::<u8>::empty());
        assert(le_digits_value(Seq::<u8>::empty()) == 0);
        assert(le_digits_value(s) == s[0] + 10 * 0);
    } else {
        assert(s.drop_first().last() == s.last());
        lemma_le_pos(s.drop_first());
        assert(le_digits_value(s) == s[0] + 10 * le_digits_value(s.drop_first()));
    }
}

/// Reading normalized little-endian digits from the top down gives the
/// canonical decimal string of their value.
proof fn lemma_le_to_dec_str(s: Seq<u8>)
    requires
        le_digits_ok(s),
        s.len() > 0,
        s.last() >= 1,
    ensures
        dec_str(le_digits_value(s)) =~= Seq::new(s.len(), |i: int| digit_char(s[s.len() - 1 - i] as int)),
    decreases s.len(),
{
    let v = le_digits_value(s);
    if s.len() == 1 {
        assert(s[0] == s.last());
        assert(le_digits_value(s.drop_first()) == 0) by {
            assert(s.drop_first() =~= Seq::<u8>::empty());
        }
        assert(v == s[0]);
        assert(dec_str(v) == seq![digit_char(s[0] as int)]);
    } else {
        let rest = s.drop_first();
        assert(rest.last() == s.last());
        assert(le_digits_ok(rest)) by {
            assert(forall|i: int| 0 <= i < rest.len() ==> rest[i] == s[i + 1]);
        }
        lemma_le_pos(rest);
        let w = le_digits_value(rest);
        assert(v == s[0] + 10 * w);
        assert(v >= 10);
        vstd::arithmetic::div_mod::lemma_div_multiples_vanish_fancy(w, s[0] as int, 10);
        assert(v / 10 == w);
        vstd::arithmetic::div_mod::lemma_mod_multiples_vanish(w, s[0] as int, 10);
        vstd::arithmetic::div_mod::lemma_small_mod(s[0] as nat, 10);
        assert(v % 10 == s[0]);
        assert(dec_str(v) == dec_str(w).push(digit_char(s[0] as int)));
        lemma_le_to_dec_str(rest);
    }
}

/// One decimal digit as its character.
fn digit_to_char(d: u8) -> (c: char)
    requires
        d < 10,
    ensures
        c == digit_char(d as int),
{
    if d == 0 {
        '0'
    } else if d == 1 {
        '1'
    } else if d == 2 {
        '2'
    } else if d == 3 {
        '3'
    } else if d == 4 {
        '4'
    } else if d == 5 {
        '5'
    } else if d == 6 {
        '6'
    } else if d == 7 {
        '7'
    } else if d == 8 {
        '8'
    } else {
        '9'
    }
}

/// Relies on `String::push`: appends one character to the string.
#[verifier::external_body]
pub(crate) fn push_char(s: &mut String, c: char)
    ensures
        final(s)@ == old(s)@.push(c),
{
    s.push(c);
}

/// Multiplies a little-endian decimal number by `f`, digit by digit with a
/// running carry.
fn mul_le_digits(v: Vec<u8>, f: u64) -> (r: Vec<u8>)
    requires
        le_digits_ok(v@),
        v@.len() > 0,
        v@.last() >= 1,
        f >= 1,
    ensures
        le_digits_ok(r@),
        r@.len() > 0,
        r@.last() >= 1,
        le_digits_value(r@) == le_digits_value(v@) * f,
{
    let mut out: Vec<u8> = Vec::new();
    let mut c: u64 = 0;
    let n = v.len();
    let mut i: usize = 0;
    proof {
        reveal(pow);
        assert(v@.subrange(0, 0) =~= Seq::<u8>::empty());
        assert(pow(10, 0) == 1);
    }
    while i < n
        invariant
            n == v@.len(),
            i <= n,
            le_digits_ok(v@),
            v@.last() >= 1,
            f >= 1,
            c <= f,
            out@.len() == i,
            le_digits_ok(out@),
            le_digits_value(out@) + c * pow(10, i as nat) == le_digits_value(v@.subrange(0, i as int))
                * f,
            i > 0 && c == 0 ==> out@.last() as int >= v@[i - 1] as int,
        decreases n - i,
    {
        let d = v[i];
        proof {
            assert(d as int * f as int + c as int <= 10 * f as int) by (nonlinear_arith)
                requires
                    d < 10,
                    c <= f,
                    f >= 1,
            ;
        }
        let t: u128 = d as u128 * f as u128 + c as u128;
        proof {
            assert(t as int == d as int * f as int + c as int);
            assert(t as int / 10 <= f as int) by (nonlinear_arith)
                requires
                    t as int <= 10 * f as int,
                    t as int >= 0,
            ;
        }
        let dig: u8 = (t % 10) as u8;
        let c2: u64 = (t / 10) as u64;
        let ghost pre = v@.subrange(0, i as int);
        let ghost pre1 = v@.subrange(0, i + 1 as int);
        proof {
            reveal(pow);
            assert(pre1.drop_last() =~= pre);
            assert(pre1 =~= pre.push(v@[i as int]));
            lemma_le_push(pre, v@[i as int]);
            lemma_le_push(out@, dig);
            lemma_fundamental_div_mod(t as int, 10);
            assert(pow(10, (i + 1) as nat) == 10 * pow(10, i as nat));
            // the running identity survives one digit step
            assert(le_digits_value(out@.push(dig)) + c2 as int * pow(10, (i + 1) as nat)
                == le_digits_value(pre1) * f) by (nonlinear_arith)
                requires
                    le_digits_value(out@.push(dig)) == le_digits_value(out@) + (dig as int) * pow(
                        10,
                        i as nat,
                    ),
                    le_digits_value(pre1) == le_digits_value(pre) + (v@[i as int] as int) * pow(
                        10,
                        i as nat,
                    ),
                    le_digits_value(out@) + (c as int) * pow(10, i as nat) == le_digits_value(pre)
                        * f,
                    t as int == 10 * (t as int / 10) + t as int % 10,
                    dig as int == t as int % 10,
                    c2 as int == t as int / 10,
                    t as int == (v@[i as int] as int) * (f as int) + c as int,
                    pow(10, (i + 1) as nat) == 10 * pow(10, i as nat),
            ;
            // if no carry leaves this digit, it is at least the input digit
            if c2 == 0 {
                assert((t as int) < 10);
                assert(dig as int == t as int);
                assert((v@[i as int] as int) * (f as int) >= v@[i as int] as int)
                    by (nonlinear_arith)
                    requires
                        f >= 1,
                        v@[i as int] >= 0,
                ;
            }
        }
        out.push(dig);
        c = c2;
        i += 1;
    }
    proof {
        assert(v@.subrange(0, n as int) =~= v@);
    }
    while c > 0
        invariant
            le_digits_ok(out@),
            le_digits_value(out@) + c * pow(10, out@.len() as nat) == le_digits_value(v@) * f,
            out@.len() > 0,
            c == 0 ==> out@.last() >= 1,
            v@.len() > 0,
            v@.last() >= 1,
            le_digits_ok(v@),
            f >= 1,
        decreases c,
    {
        let dig: u8 = (c % 10) as u8;
        let c2: u64 = c / 10;
        proof {
            reveal(pow);
            lemma_le_push(out@, dig);
            lemma_fundamental_div_mod(c as int, 10);
            assert(pow(10, (out@.len() + 1) as nat) == 10 * pow(10, out@.len() as nat));
            assert(le_digits_value(out@.push(dig)) + c2 as int * pow(10, (out@.len() + 1) as nat)
                == le_digits_value(v@) * f) by (nonlinear_arith)
                requires
                    le_digits_value(out@.push(dig)) == le_digits_value(out@) + (dig as int) * pow(
                        10,
                        out@.len() as nat,
                    ),
                    le_digits_value(out@) + (c as int) * pow(10, out@.len() as nat)
                        == le_digits_value(v@) * f,
                    c as int == 10 * (c2 as int) + dig as int,
                    pow(10, (out@.len() + 1) as nat) == 10 * pow(10, out@.len() as nat),
            ;
            if c2 == 0 {
                assert(dig as int == c as int);
            }
        }
        out.push(dig);
        c = c2;
    }
    proof {
        reveal(pow);
        if out@.len() == 0 {
            lemma_le_pos(v@);
            assert(le_digits_value(v@) * f >= 1) by (nonlinear_arith)
                requires
                    le_digits_value(v@) >= 1,
                    f >= 1,
            ;
            assert(false);
        }
        // the carry is zero, so the top digit is positive: either the carry
        // loop pushed it, or the main loop finished carry-free
        assert(out@.last() >= 1);
    }
    out
}

impl Registers {
    /// The decimal numeral of this register value: the product of its prime
    /// powers, rendered exactly, with the identity rendering as "1".
    pub fn to_decimal_string(&self) -> (r: String)
        requires
            self.wf(),
        ensures
            r@ == dec_str(value_of(self@)),
    {
        let mut digits: Vec<u8> = Vec::new();
        digits.push(1);
        proof {
            reveal(pow);
            assert(digits@ =~= seq![1u8]);
            assert(digits@.drop_first() =~= Seq::<u8>::empty());
            assert(le_digits_value(Seq::<u8>::empty()) == 0);
            assert(le_digits_value(digits@) == digits@[0] + 10 * 0);
            assert(le_digits_value(digits@) == 1);
            assert(self@.subrange(0, 0) =~= Seq::<(int, int)>::empty());
        }
        let n = self.0.len();
        let mut i: usize = 0;
        while i < n
            invariant
                self.wf(),
                n == self.0.len(),
                i <= n,
                le_digits_ok(digits@),
                digits@.len() > 0,
                digits@.last() >= 1,
                le_digits_value(digits@) == value_of(self@.subrange(0, i as int)),
            decreases n - i,
        {
            let (p, e) = self.0[i];
            let ghost entry = self@[i as int];
            proof {
                assert(entry == (p as int, e as int));
                assert(is_prime(entry.0));
                assert(p >= 2);
                assert(pow(p as int, 0) == 1) by {
                    reveal(pow);
                }
            }
            let ghost base_val = le_digits_value(digits@);
            let mut k: u32 = 0;
            while k < e
                invariant
                    k <= e,
                    p >= 2,
                    le_digits_ok(digits@),
                    digits@.len() > 0,
                    digits@.last() >= 1,
                    le_digits_value(digits@) == base_val * pow(p as int, k as nat),
                    base_val * pow(p as int, 0) == base_val,
                decreases e - k,
            {
                digits = mul_le_digits(digits, p);
                proof {
                    reveal(pow);
                    assert(pow(p as int, (k + 1) as nat) == p as int * pow(p as int, k as nat));
                    assert((base_val * pow(p as int, k as nat)) * p as int == base_val * pow(
                        p as int,
                        (k + 1) as nat,
                    )) by (nonlinear_arith)
                        requires
                            pow(p as int, (k + 1) as nat) == p as int * pow(p as int, k as nat),
                    ;
                }
                k += 1;
            }
            proof {
                let pre = self@.subrange(0, i as int);
                let pre1 = self@.subrange(0, i + 1 as int);
                assert(pre1 =~= pre.push(entry));
                lemma_value_push(pre, entry);
                assert(entry.1 as nat == e as nat);
            }
            i += 1;
        }
        proof {
            assert(self@.subrange(0, n as int) =~= self@);
        }
        // render, top digit first
        let mut out = String::new();
        let m = digits.len();
        let mut k: usize = 0;
        while k < m
            invariant
                m == digits@.len(),
                k <= m,
                le_digits_ok(digits@),
                out@ =~= Seq::new(k as nat, |j: int| digit_char(digits@[m - 1 - j] as int)),
            decreases m - k,
        {
            let c = digit_to_char(digits[m - 1 - k]);
            push_char(&mut out, c);
            proof {
                assert(out@ =~= Seq::new((k + 1) as nat, |j: int| digit_char(digits@[m - 1 - j] as int)));
            }
            k += 1;
        }
        proof {
            lemma_le_to_dec_str(digits@);
            assert(out@ =~= Seq::new(m as nat, |j: int| digit_char(digits@[m - 1 - j] as int)));
        }
        out
    }
}


} // verus!
