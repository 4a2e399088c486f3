//! Register values: positive integers represented as sorted lists of
//! `(prime, exponent)` pairs, supporting exact multiplication and
//! divide-if-divisible through merges of the factor lists.

use vstd::prelude::*;

verus! {

/// Primality over the mathematical integers.
pub open spec fn is_prime(p: int) -> bool {
    p >= 2 && forall|d: int| 2 <= d < p ==> #[trigger] (p % d) != 0
}

/// The factor list seen as ideal integers.
pub open spec fn facs(s: Seq<(u64, u32)>) -> Seq<(int, int)> {
    s.map_values(|e: (u64, u32)| (e.0 as int, e.1 as int))
}

/// Primes strictly increase along the list.
pub open spec fn sorted_factors(s: Seq<(int, int)>) -> bool {
    forall|i: int, j: int| 0 <= i < j < s.len() ==> s[i].0 < s[j].0
}

/// A normalized factor list: strictly sorted by prime, every exponent
/// positive, every base prime.
pub open spec fn wf_factors(s: Seq<(int, int)>) -> bool {
    &&& sorted_factors(s)
    &&& forall|i: int| 0 <= i < s.len() ==> (#[trigger] s[i]).1 >= 1
    &&& forall|i: int| 0 <= i < s.len() ==> is_prime((#[trigger] s[i]).0)
}

/// The exponent of `p` in the list (0 when `p` does not occur).
pub open spec fn exp_of(s: Seq<(int, int)>, p: int) -> int
    decreases s.len(),
{
    if s.len() == 0 {
        0
    } else if s[0].0 == p {
        s[0].1
    } else {
        exp_of(s.drop_first(), p)
    }
}

pub open spec fn has_prime(s: Seq<(int, int)>, p: int) -> bool {
    exists|i: int| 0 <= i < s.len() && s[i].0 == p
}

/// Merge-join product of two factor lists: matching primes add exponents.
pub open spec fn mul_factors(a: Seq<(int, int)>, b: Seq<(int, int)>) -> Seq<(int, int)>
    decreases a.len() + b.len(),
{
    if a.len() == 0 {
        b
    } else if b.len() == 0 {
        a
    } else if a[0].0 < b[0].0 {
        seq![a[0]] + mul_factors(a.drop_first(), b)
    } else if a[0].0 > b[0].0 {
        seq![b[0]] + mul_factors(a, b.drop_first())
    } else {
        seq![(a[0].0, a[0].1 + b[0].1)] + mul_factors(a.drop_first(), b.drop_first())
    }
}

/// Merge-join exact division: subtracts exponents, fails if any would go
/// negative, and drops entries whose exponent reaches zero.
pub open spec fn div_factors(a: Seq<(int, int)>, b: Seq<(int, int)>) -> Option<Seq<(int, int)>>
    decreases a.len() + b.len(),
{
    if b.len() == 0 {
        Some(a)
    } else if a.len() == 0 {
        None
    } else if a[0].0 < b[0].0 {
        match div_factors(a.drop_first(), b) {
            Some(q) => Some(seq![a[0]] + q),
            None => None,
        }
    } else if a[0].0 > b[0].0 {
        None
    } else if a[0].1 < b[0].1 {
        None
    } else if a[0].1 == b[0].1 {
        div_factors(a.drop_first(), b.drop_first())
    } else {
        match div_factors(a.drop_first(), b.drop_first()) {
            Some(q) => Some(seq![(a[0].0, a[0].1 - b[0].1)] + q),
            None => None,
        }
    }
}

/// Whether the product of `a` and `b` keeps every exponent within `u32`.
pub open spec fn mul_fits(a: Seq<(int, int)>, b: Seq<(int, int)>) -> bool {
    forall|p: int| #[trigger] exp_of(a, p) + exp_of(b, p) <= u32::MAX
}

proof fn lemma_exp_cons(x: (int, int), s: Seq<(int, int)>, p: int)
    ensures
        exp_of(seq![x] + s, p) == if x.0 == p {
            x.1
        } else {
            exp_of(s, p)
        },
{
    let t = seq![x] + s;
    assert(t[0] == x);
    assert(t.drop_first() =~= s);
}

proof fn lemma_exp_absent(s: Seq<(int, int)>, p: int)
    requires
        forall|i: int| 0 <= i < s.len() ==> (#[trigger] s[i]).0 != p,
    ensures
        exp_of(s, p) == 0,
    decreases s.len(),
{
    if s.len() > 0 {
        assert(s[0].0 != p);
        assert(forall|i: int|
            0 <= i < s.drop_first().len() ==> (#[trigger] s.drop_first()[i]).0 != p);
        lemma_exp_absent(s.drop_first(), p);
    }
}

proof fn lemma_exp_nonneg(s: Seq<(int, int)>, p: int)
    requires
        forall|i: int| 0 <= i < s.len() ==> (#[trigger] s[i]).1 >= 0,
    ensures
        exp_of(s, p) >= 0,
    decreases s.len(),
{
    if s.len() > 0 && s[0].0 != p {
        assert(forall|i: int|
            0 <= i < s.drop_first().len() ==> (#[trigger] s.drop_first()[i]).1 >= 0);
        lemma_exp_nonneg(s.drop_first(), p);
    }
}

proof fn lemma_exp_upper(s: Seq<(int, int)>, p: int, m: int)
    requires
        m >= 0,
        forall|i: int| 0 <= i < s.len() ==> (#[trigger] s[i]).1 <= m,
    ensures
        exp_of(s, p) <= m,
    decreases s.len(),
{
    if s.len() > 0 && s[0].0 != p {
        assert(forall|i: int|
            0 <= i < s.drop_first().len() ==> (#[trigger] s.drop_first()[i]).1 <= m);
        lemma_exp_upper(s.drop_first(), p, m);
    }
}

pub proof fn lemma_exp_at_index(s: Seq<(int, int)>, i: int)
    requires
        sorted_factors(s),
        0 <= i < s.len(),
    ensures
        exp_of(s, s[i].0) == s[i].1,
    decreases s.len(),
{
    if i == 0 {
    } else {
        assert(s[0].0 < s[i].0);
        assert(sorted_factors(s.drop_first())) by {
            assert(forall|x: int, y: int|
                0 <= x < y < s.drop_first().len() ==> (#[trigger] s.drop_first()[x]).0
                    < (#[trigger] s.drop_first()[y]).0);
        }
        lemma_exp_at_index(s.drop_first(), i - 1);
        assert(s.drop_first()[i - 1] == s[i]);
    }
}

proof fn lemma_wf_drop(s: Seq<(int, int)>)
    requires
        wf_factors(s),
        s.len() > 0,
    ensures
        wf_factors(s.drop_first()),
{
    let t = s.drop_first();
    assert(forall|i: int, j: int| 0 <= i < j < t.len() ==> (#[trigger] t[i]).0 < (#[trigger] t[j]).0);
    assert(forall|i: int| 0 <= i < t.len() ==> (#[trigger] t[i]).1 >= 1);
    assert(forall|i: int| 0 <= i < t.len() ==> is_prime((#[trigger] t[i]).0));
}

/// Properties of the merge product: well-formedness is preserved, exponents
/// add pointwise, and the head prime comes from one of the operands.
pub proof fn lemma_mul_factors_props(a: Seq<(int, int)>, b: Seq<(int, int)>)
    requires
        wf_factors(a),
        wf_factors(b),
    ensures
        wf_factors(mul_factors(a, b)),
        forall|p: int| #[trigger] exp_of(mul_factors(a, b), p) == exp_of(a, p) + exp_of(b, p),
        mul_factors(a, b).len() > 0 ==> ((a.len() > 0 && mul_factors(a, b)[0].0 == a[0].0) || (
        b.len() > 0 && mul_factors(a, b)[0].0 == b[0].0)),
    decreases a.len() + b.len(),
{
    let m = mul_factors(a, b);
    if a.len() == 0 {
        assert(forall|p: int| #[trigger] exp_of(m, p) == exp_of(a, p) + exp_of(b, p)) by {
            assert(forall|p: int| exp_of(a, p) == 0);
        }
    } else if b.len() == 0 {
        assert(forall|p: int| #[trigger] exp_of(m, p) == exp_of(a, p) + exp_of(b, p)) by {
            assert(forall|p: int| exp_of(b, p) == 0);
        }
    } else {
        let a0 = a[0];
        let b0 = b[0];
        lemma_wf_drop(a);
        lemma_wf_drop(b);
        if a0.0 < b0.0 {
            let m2 = mul_factors(a.drop_first(), b);
            lemma_mul_factors_props(a.drop_first(), b);
            assert(m == seq![a0] + m2);
            // every prime in m2 is above a0.0
            assert(forall|i: int| 0 <= i < m2.len() ==> a0.0 < (#[trigger] m2[i]).0) by {
                if m2.len() > 0 {
                    assert(a0.0 < m2[0].0);
                    assert(forall|i: int| 1 <= i < m2.len() ==> m2[0].0 < (#[trigger] m2[i]).0);
                }
            }
            assert(wf_factors(m)) by {
                assert(forall|i: int, j: int|
                    0 <= i < j < m.len() ==> (#[trigger] m[i]).0 < (#[trigger] m[j]).0) by {
                    assert(forall|i: int| 1 <= i < m.len() ==> m[i] == m2[i - 1]);
                }
                assert(forall|i: int| 0 <= i < m.len() ==> (#[trigger] m[i]).1 >= 1) by {
                    assert(forall|i: int| 1 <= i < m.len() ==> m[i] == m2[i - 1]);
                }
                assert(forall|i: int| 0 <= i < m.len() ==> is_prime((#[trigger] m[i]).0)) by {
                    assert(forall|i: int| 1 <= i < m.len() ==> m[i] == m2[i - 1]);
                }
            }
            assert forall|p: int| #[trigger] exp_of(m, p) == exp_of(a, p) + exp_of(b, p) by {
                lemma_exp_cons(a0, m2, p);
                if p == a0.0 {
                    lemma_exp_absent(b, p);
                    lemma_exp_at_index(a, 0);
                } else {
                    assert(exp_of(a, p) == exp_of(a.drop_first(), p));
                }
            }
        } else if a0.0 > b0.0 {
            let m2 = mul_factors(a, b.drop_first());
            lemma_mul_factors_props(a, b.drop_first());
            assert(m == seq![b0] + m2);
            assert(forall|i: int| 0 <= i < m2.len() ==> b0.0 < (#[trigger] m2[i]).0) by {
                if m2.len() > 0 {
                    assert(b0.0 < m2[0].0);
                    assert(forall|i: int| 1 <= i < m2.len() ==> m2[0].0 < (#[trigger] m2[i]).0);
                }
            }
            assert(wf_factors(m)) by {
                assert(forall|i: int, j: int|
                    0 <= i < j < m.len() ==> (#[trigger] m[i]).0 < (#[trigger] m[j]).0) by {
                    assert(forall|i: int| 1 <= i < m.len() ==> m[i] == m2[i - 1]);
                }
                assert(forall|i: int| 0 <= i < m.len() ==> (#[trigger] m[i]).1 >= 1) by {
                    assert(forall|i: int| 1 <= i < m.len() ==> m[i] == m2[i - 1]);
                }
                assert(forall|i: int| 0 <= i < m.len() ==> is_prime((#[trigger] m[i]).0)) by {
                    assert(forall|i: int| 1 <= i < m.len() ==> m[i] == m2[i - 1]);
                }
            }
            assert forall|p: int| #[trigger] exp_of(m, p) == exp_of(a, p) + exp_of(b, p) by {
                lemma_exp_cons(b0, m2, p);
                if p == b0.0 {
                    lemma_exp_absent(a, p);
                    lemma_exp_at_index(b, 0);
                } else {
                    assert(exp_of(b, p) == exp_of(b.drop_first(), p));
                }
            }
        } else {
            let m2 = mul_factors(a.drop_first(), b.drop_first());
            lemma_mul_factors_props(a.drop_first(), b.drop_first());
            let h = (a0.0, a0.1 + b0.1);
            assert(m == seq![h] + m2);
            assert(forall|i: int| 0 <= i < m2.len() ==> a0.0 < (#[trigger] m2[i]).0) by {
                if m2.len() > 0 {
                    assert(a0.0 < m2[0].0);
                    assert(forall|i: int| 1 <= i < m2.len() ==> m2[0].0 < (#[trigger] m2[i]).0);
                }
            }
            assert(wf_factors(m)) by {
                assert(forall|i: int, j: int|
                    0 <= i < j < m.len() ==> (#[trigger] m[i]).0 < (#[trigger] m[j]).0) by {
                    assert(forall|i: int| 1 <= i < m.len() ==> m[i] == m2[i - 1]);
                }
                assert(forall|i: int| 0 <= i < m.len() ==> (#[trigger] m[i]).1 >= 1) by {
                    assert(forall|i: int| 1 <= i < m.len() ==> m[i] == m2[i - 1]);
                }
                assert(forall|i: int| 0 <= i < m.len() ==> is_prime((#[trigger] m[i]).0)) by {
                    assert(forall|i: int| 1 <= i < m.len() ==> m[i] == m2[i - 1]);
                }
            }
            assert forall|p: int| #[trigger] exp_of(m, p) == exp_of(a, p) + exp_of(b, p) by {
                lemma_exp_cons(h, m2, p);
                if p == a0.0 {
                    lemma_exp_at_index(a, 0);
                    lemma_exp_at_index(b, 0);
                } else {
                    assert(exp_of(a, p) == exp_of(a.drop_first(), p));
                    assert(exp_of(b, p) == exp_of(b.drop_first(), p));
                }
            }
        }
    }
}

/// Properties of merge division: it succeeds exactly when every exponent of
/// the divisor is covered, and then subtracts exponents pointwise.
pub proof fn lemma_div_factors_props(a: Seq<(int, int)>, b: Seq<(int, int)>)
    requires
        wf_factors(a),
        wf_factors(b),
    ensures
        div_factors(a, b) is Some <==> (forall|p: int| #[trigger] exp_of(b, p) <= exp_of(a, p)),
        div_factors(a, b) matches Some(q) ==> wf_factors(q) && (forall|p: int|
            #[trigger] exp_of(q, p) == exp_of(a, p) - exp_of(b, p)) && (q.len() > 0 ==> a.len() > 0
            && q[0].0 >= a[0].0),
    decreases a.len() + b.len(),
{
    if b.len() == 0 {
        assert(forall|p: int| exp_of(b, p) == 0);
        assert(forall|p: int| #[trigger] exp_of(b, p) <= exp_of(a, p)) by {
            assert(forall|p: int| exp_of(a, p) >= 0) by {
                assert forall|p: int| exp_of(a, p) >= 0 by {
                    lemma_exp_nonneg(a, p);
                }
            }
        }
    } else if a.len() == 0 {
        let pb = b[0].0;
        lemma_exp_at_index(b, 0);
        assert(exp_of(b, pb) == b[0].1 >= 1);
        assert(exp_of(a, pb) == 0);
        assert(!(forall|p: int| #[trigger] exp_of(b, p) <= exp_of(a, p)));
    } else {
        let a0 = a[0];
        let b0 = b[0];
        lemma_wf_drop(a);
        lemma_wf_drop(b);
        if a0.0 < b0.0 {
            lemma_div_factors_props(a.drop_first(), b);
            // exponents of `a` and its tail agree except at a0.0, where b has none
            assert(exp_of(b, a0.0) == 0) by {
                assert(forall|i: int| 0 <= i < b.len() ==> a0.0 < (#[trigger] b[i]).0) by {
                    assert(forall|i: int| 1 <= i < b.len() ==> b[0].0 < (#[trigger] b[i]).0);
                }
                lemma_exp_absent(b, a0.0);
            }
            lemma_exp_at_index(a, 0);
            match div_factors(a.drop_first(), b) {
                Some(q2) => {
                    let q = seq![a0] + q2;
                    assert(div_factors(a, b) == Some(q));
                    assert(forall|i: int| 0 <= i < q2.len() ==> a0.0 < (#[trigger] q2[i]).0) by {
                        if q2.len() > 0 {
                            assert(q2[0].0 >= a.drop_first()[0].0 > a0.0);
                            assert(forall|i: int|
                                1 <= i < q2.len() ==> q2[0].0 < (#[trigger] q2[i]).0);
                        }
                    }
                    assert(wf_factors(q)) by {
                        assert(forall|i: int, j: int|
                            0 <= i < j < q.len() ==> (#[trigger] q[i]).0 < (#[trigger] q[j]).0) by {
                            assert(forall|i: int| 1 <= i < q.len() ==> q[i] == q2[i - 1]);
                        }
                        assert(forall|i: int| 0 <= i < q.len() ==> (#[trigger] q[i]).1 >= 1) by {
                            assert(forall|i: int| 1 <= i < q.len() ==> q[i] == q2[i - 1]);
                        }
                        assert(forall|i: int| 0 <= i < q.len() ==> is_prime((#[trigger] q[i]).0))
                            by {
                            assert(forall|i: int| 1 <= i < q.len() ==> q[i] == q2[i - 1]);
                        }
                    }
                    assert forall|p: int| #[trigger] exp_of(q, p) == exp_of(a, p) - exp_of(b, p) by {
                        lemma_exp_cons(a0, q2, p);
                        if p == a0.0 {
                        } else {
                            assert(exp_of(a, p) == exp_of(a.drop_first(), p));
                        }
                    }
                    assert forall|p: int| #[trigger] exp_of(b, p) <= exp_of(a, p) by {
                        if p == a0.0 {
                            assert(exp_of(b, p) == 0 <= a0.1);
                        } else {
                            assert(exp_of(a, p) == exp_of(a.drop_first(), p));
                        }
                    }
                },
                None => {
                    assert(!(forall|p: int|
                        #[trigger] exp_of(b, p) <= exp_of(a.drop_first(), p)));
                    let p = choose|p: int| !(#[trigger] exp_of(b, p) <= exp_of(a.drop_first(), p));
                    assert(p != a0.0) by {
                        if p == a0.0 {
                            lemma_exp_nonneg(a.drop_first(), p);
                        }
                    }
                    assert(exp_of(a, p) == exp_of(a.drop_first(), p));
                    assert(!(exp_of(b, p) <= exp_of(a, p)));
                },
            }
        } else if a0.0 > b0.0 {
            assert(exp_of(a, b0.0) == 0) by {
                assert(forall|i: int| 0 <= i < a.len() ==> b0.0 < (#[trigger] a[i]).0) by {
                    assert(forall|i: int| 1 <= i < a.len() ==> a[0].0 < (#[trigger] a[i]).0);
                }
                lemma_exp_absent(a, b0.0);
            }
            lemma_exp_at_index(b, 0);
            assert(!(exp_of(b, b0.0) <= exp_of(a, b0.0)));
        } else if a0.1 < b0.1 {
            lemma_exp_at_index(a, 0);
            lemma_exp_at_index(b, 0);
            assert(!(exp_of(b, b0.0) <= exp_of(a, b0.0)));
        } else {
            lemma_div_factors_props(a.drop_first(), b.drop_first());
            lemma_exp_at_index(a, 0);
            lemma_exp_at_index(b, 0);
            // tail exponents of the head prime are zero on both sides
            assert(exp_of(a.drop_first(), a0.0) == 0) by {
                assert(forall|i: int|
                    0 <= i < a.drop_first().len() ==> a0.0 < (#[trigger] a.drop_first()[i]).0) by {
                    assert(forall|i: int| 1 <= i < a.len() ==> a[0].0 < (#[trigger] a[i]).0);
                }
                lemma_exp_absent(a.drop_first(), a0.0);
            }
            assert(exp_of(b.drop_first(), a0.0) == 0) by {
                assert(forall|i: int|
                    0 <= i < b.drop_first().len() ==> a0.0 < (#[trigger] b.drop_first()[i]).0) by {
                    assert(forall|i: int| 1 <= i < b.len() ==> b[0].0 < (#[trigger] b[i]).0);
                }
                lemma_exp_absent(b.drop_first(), a0.0);
            }
            match div_factors(a.drop_first(), b.drop_first()) {
                Some(q2) => {
                    assert(forall|i: int| 0 <= i < q2.len() ==> a0.0 < (#[trigger] q2[i]).0) by {
                        if q2.len() > 0 {
                            assert(q2[0].0 >= a.drop_first()[0].0 > a0.0);
                            assert(forall|i: int|
                                1 <= i < q2.len() ==> q2[0].0 < (#[trigger] q2[i]).0);
                        }
                    }
                    if a0.1 == b0.1 {
                        assert(div_factors(a, b) == Some(q2));
                        assert forall|p: int|
                            #[trigger] exp_of(q2, p) == exp_of(a, p) - exp_of(b, p) by {
                            if p == a0.0 {
                                lemma_exp_absent(q2, p);
                            } else {
                                assert(exp_of(a, p) == exp_of(a.drop_first(), p));
                                assert(exp_of(b, p) == exp_of(b.drop_first(), p));
                            }
                        }
                        assert(q2.len() > 0 ==> q2[0].0 >= a[0].0);
                    } else {
                        let h = (a0.0, a0.1 - b0.1);
                        let q = seq![h] + q2;
                        assert(div_factors(a, b) == Some(q));
                        assert(wf_factors(q)) by {
                            assert(forall|i: int, j: int|
                                0 <= i < j < q.len() ==> (#[trigger] q[i]).0 < (#[trigger] q[j]).0)
                                by {
                                assert(forall|i: int| 1 <= i < q.len() ==> q[i] == q2[i - 1]);
                            }
                            assert(forall|i: int| 0 <= i < q.len() ==> (#[trigger] q[i]).1 >= 1)
                                by {
                                assert(forall|i: int| 1 <= i < q.len() ==> q[i] == q2[i - 1]);
                            }
                            assert(forall|i: int|
                                0 <= i < q.len() ==> is_prime((#[trigger] q[i]).0)) by {
                                assert(forall|i: int| 1 <= i < q.len() ==> q[i] == q2[i - 1]);
                            }
                        }
                        assert forall|p: int| #[trigger] exp_of(q, p) == exp_of(a, p) - exp_of(
                            b,
                            p,
                        ) by {
                            lemma_exp_cons(h, q2, p);
                            if p == a0.0 {
                            } else {
                                assert(exp_of(a, p) == exp_of(a.drop_first(), p));
                                assert(exp_of(b, p) == exp_of(b.drop_first(), p));
                            }
                        }
                    }
                    assert forall|p: int| #[trigger] exp_of(b, p) <= exp_of(a, p) by {
                        if p == a0.0 {
                        } else {
                            assert(exp_of(a, p) == exp_of(a.drop_first(), p));
                            assert(exp_of(b, p) == exp_of(b.drop_first(), p));
                        }
                    }
                },
                None => {
                    let p = choose|p: int|
                        !(#[trigger] exp_of(b.drop_first(), p) <= exp_of(a.drop_first(), p));
                    assert(p != a0.0) by {
                        if p == a0.0 {
                            lemma_exp_nonneg(a.drop_first(), p);
                        }
                    }
                    assert(exp_of(a, p) == exp_of(a.drop_first(), p));
                    assert(exp_of(b, p) == exp_of(b.drop_first(), p));
                    assert(!(exp_of(b, p) <= exp_of(a, p)));
                },
            }
        }
    }
}

/// Canonical forms are unique: two normalized factor lists with the same
/// exponent at every prime are the same list.
pub proof fn lemma_canonical_factors(a: Seq<(int, int)>, b: Seq<(int, int)>)
    requires
        wf_factors(a),
        wf_factors(b),
        forall|p: int| #[trigger] exp_of(a, p) == exp_of(b, p),
    ensures
        a == b,
    decreases a.len() + b.len(),
{
    if a.len() == 0 && b.len() == 0 {
        assert(a =~= b);
    } else if a.len() == 0 {
        lemma_exp_at_index(b, 0);
        assert(exp_of(a, b[0].0) == 0);
        assert(false);
    } else if b.len() == 0 {
        lemma_exp_at_index(a, 0);
        assert(exp_of(b, a[0].0) == 0);
        assert(false);
    } else {
        let a0 = a[0];
        let b0 = b[0];
        lemma_exp_at_index(a, 0);
        lemma_exp_at_index(b, 0);
        if a0.0 < b0.0 {
            assert(forall|i: int| 0 <= i < b.len() ==> a0.0 < (#[trigger] b[i]).0) by {
                assert(forall|i: int| 1 <= i < b.len() ==> b[0].0 < (#[trigger] b[i]).0);
            }
            lemma_exp_absent(b, a0.0);
            assert(false);
        } else if a0.0 > b0.0 {
            assert(forall|i: int| 0 <= i < a.len() ==> b0.0 < (#[trigger] a[i]).0) by {
                assert(forall|i: int| 1 <= i < a.len() ==> a[0].0 < (#[trigger] a[i]).0);
            }
            lemma_exp_absent(a, b0.0);
            assert(false);
        } else {
            assert(a0.1 == b0.1);
            lemma_wf_drop(a);
            lemma_wf_drop(b);
            assert(exp_of(a.drop_first(), a0.0) == 0) by {
                assert(forall|i: int|
                    0 <= i < a.drop_first().len() ==> a0.0 < (#[trigger] a.drop_first()[i]).0) by {
                    assert(forall|i: int| 1 <= i < a.len() ==> a[0].0 < (#[trigger] a[i]).0);
                }
                lemma_exp_absent(a.drop_first(), a0.0);
            }
            assert(exp_of(b.drop_first(), a0.0) == 0) by {
                assert(forall|i: int|
                    0 <= i < b.drop_first().len() ==> a0.0 < (#[trigger] b.drop_first()[i]).0) by {
                    assert(forall|i: int| 1 <= i < b.len() ==> b[0].0 < (#[trigger] b[i]).0);
                }
                lemma_exp_absent(b.drop_first(), a0.0);
            }
            assert forall|p: int| #[trigger] exp_of(a.drop_first(), p) == exp_of(
                b.drop_first(),
                p,
            ) by {
                if p != a0.0 {
                    assert(exp_of(a, p) == exp_of(a.drop_first(), p));
                    assert(exp_of(b, p) == exp_of(b.drop_first(), p));
                }
            }
            lemma_canonical_factors(a.drop_first(), b.drop_first());
            assert(a =~= b) by {
                assert(a.len() == b.len());
                assert(forall|i: int| 1 <= i < a.len() ==> a[i] == a.drop_first()[i - 1]);
                assert(forall|i: int| 1 <= i < b.len() ==> b[i] == b.drop_first()[i - 1]);
            }
        }
    }
}

/// A register value: a normalized prime-factorization list. The empty list
/// is the multiplicative identity 1.
#[derive(Debug)]
pub struct Registers(pub Vec<(u64, u32)>);

impl View for Registers {
    type V = Seq<(int, int)>;

    open spec fn view(&self) -> Seq<(int, int)> {
        facs(self.0@)
    }
}

impl DeepView for Registers {
    type V = Seq<(int, int)>;

    open spec fn deep_view(&self) -> Seq<(int, int)> {
        facs(self.0@)
    }
}

impl PartialEq for Registers {
    fn eq(&self, other: &Registers) -> (r: bool) {
        if self.0.len() != other.0.len() {
            return false;
        }
        let n = self.0.len();
        let mut i: usize = 0;
        while i < n
            invariant
                n == self.0.len() == other.0.len(),
                i <= n,
                forall|k: int| 0 <= k < i ==> self.0@[k] == other.0@[k],
            decreases n - i,
        {
            let x = self.0[i];
            let y = other.0[i];
            if x.0 != y.0 || x.1 != y.1 {
                return false;
            }
            i += 1;
        }
        proof {
            assert(self.0@ =~= other.0@);
        }
        true
    }
}

impl Eq for Registers {

}

impl vstd::std_specs::cmp::PartialEqSpecImpl for Registers {
    open spec fn obeys_eq_spec() -> bool {
        true
    }

    open spec fn eq_spec(&self, other: &Registers) -> bool {
        self.0@ == other.0@
    }
}

impl Registers {
    /// The factor list is normalized.
    pub open spec fn wf(&self) -> bool {
        wf_factors(self@)
    }

    /// The multiplicative identity, 1: an empty factor list.
    pub fn one() -> (r: Registers)
        ensures
            r@ == Seq::<(int, int)>::empty(),
            r.wf(),
    {
        let r = Registers(Vec::new());
        proof {
            assert(r@ =~= Seq::<(int, int)>::empty());
        }
        r
    }

    /// True exactly when this value is 1.
    pub fn is_one(&self) -> (r: bool)
        ensures
            r == (self@.len() == 0),
    {
        self.0.len() == 0
    }

    /// A copy with the same factor list.
    pub fn duplicate(&self) -> (r: Registers)
        ensures
            r@ == self@,
            r.0@ == self.0@,
    {
        let mut v: Vec<(u64, u32)> = Vec::new();
        let n = self.0.len();
        let mut i: usize = 0;
        while i < n
            invariant
                n == self.0.len(),
                i <= n,
                v@ == self.0@.subrange(0, i as int),
            decreases n - i,
        {
            v.push(self.0[i]);
            proof {
                assert(v@ =~= self.0@.subrange(0, i + 1 as int));
            }
            i += 1;
        }
        proof {
            assert(v@ =~= self.0@);
        }
        Registers(v)
    }

    /// Multiplication, unless some resulting exponent would exceed `u32`.
    pub fn try_multiply(&self, other: &Registers) -> (r: Option<Registers>)
        requires
            self.wf(),
            other.wf(),
        ensures
            r is Some <==> mul_fits(self@, other@),
            r matches Some(q) ==> q.wf() && q@ == mul_factors(self@, other@),
    {
        let a = &self.0;
        let b = &other.0;
        let mut res: Vec<(u64, u32)> = Vec::new();
        let mut i: usize = 0;
        let mut j: usize = 0;
        proof {
            assert(self@.skip(0) =~= self@);
            assert(other@.skip(0) =~= other@);
            assert(facs(res@) + mul_factors(self@, other@) =~= mul_factors(self@, other@));
        }
        while i < a.len() || j < b.len()
            invariant
                self.wf(),
                other.wf(),
                a == &self.0,
                b == &other.0,
                i <= a.len(),
                j <= b.len(),
                facs(res@) + mul_factors(self@.skip(i as int), other@.skip(j as int)) == mul_factors(
                    self@,
                    other@,
                ),
            decreases a.len() - i + b.len() - j,
        {
            let ghost ra = self@.skip(i as int);
            let ghost rb = other@.skip(j as int);
            if i < a.len() && j < b.len() {
                let x = a[i];
                let y = b[j];
                proof {
                    assert(ra[0] == self@[i as int]);
                    assert(rb[0] == other@[j as int]);
                    assert(self@[i as int] == (x.0 as int, x.1 as int));
                    assert(other@[j as int] == (y.0 as int, y.1 as int));
                }
                if x.0 < y.0 {
                    proof {
                        assert(ra.drop_first() =~= self@.skip(i + 1 as int));
                        assert(mul_factors(ra, rb) == seq![ra[0]] + mul_factors(
                            ra.drop_first(),
                            rb,
                        ));
                        assert(facs(res@.push(x)) =~= facs(res@).push(ra[0]));
                        assert(facs(res@.push(x)) + mul_factors(self@.skip(i + 1 as int), rb)
                            =~= facs(res@) + mul_factors(ra, rb));
                    }
                    res.push(x);
                    i += 1;
                } else if x.0 > y.0 {
                    proof {
                        assert(rb.drop_first() =~= other@.skip(j + 1 as int));
                        assert(mul_factors(ra, rb) == seq![rb[0]] + mul_factors(
                            ra,
                            rb.drop_first(),
                        ));
                        assert(facs(res@.push(y)) =~= facs(res@).push(rb[0]));
                        assert(facs(res@.push(y)) + mul_factors(ra, other@.skip(j + 1 as int))
                            =~= facs(res@) + mul_factors(ra, rb));
                    }
                    res.push(y);
                    j += 1;
                } else {
                    let sum: u64 = x.1 as u64 + y.1 as u64;
                    if sum > u32::MAX as u64 {
                        proof {
                            lemma_exp_at_index(self@, i as int);
                            lemma_exp_at_index(other@, j as int);
                            assert(exp_of(self@, x.0 as int) + exp_of(other@, x.0 as int)
                                > u32::MAX);
                            assert(!mul_fits(self@, other@));
                        }
                        return None;
                    }
                    let e: u32 = sum as u32;
                    proof {
                        assert(ra.drop_first() =~= self@.skip(i + 1 as int));
                        assert(rb.drop_first() =~= other@.skip(j + 1 as int));
                        assert(mul_factors(ra, rb) == seq![(ra[0].0, ra[0].1 + rb[0].1)]
                            + mul_factors(ra.drop_first(), rb.drop_first()));
                        assert(facs(res@.push((x.0, e))) =~= facs(res@).push(
                            (ra[0].0, ra[0].1 + rb[0].1),
                        ));
                        assert(facs(res@.push((x.0, e))) + mul_factors(
                            self@.skip(i + 1 as int),
                            other@.skip(j + 1 as int),
                        ) =~= facs(res@) + mul_factors(ra, rb));
                    }
                    res.push((x.0, e));
                    i += 1;
                    j += 1;
                }
            } else if i < a.len() {
                let x = a[i];
                proof {
                    assert(rb =~= Seq::<(int, int)>::empty());
                    assert(ra[0] == self@[i as int]);
                    assert(self@[i as int] == (x.0 as int, x.1 as int));
                    assert(ra.len() > 0);
                    assert(mul_factors(ra, rb) == ra);
                    assert(ra =~= seq![ra[0]] + self@.skip(i + 1 as int));
                    assert(mul_factors(self@.skip(i + 1 as int), rb) == self@.skip(i + 1 as int));
                    assert(facs(res@.push(x)) =~= facs(res@).push(ra[0]));
                    assert(facs(res@.push(x)) + mul_factors(self@.skip(i + 1 as int), rb)
                        =~= facs(res@) + mul_factors(ra, rb));
                }
                res.push(x);
                i += 1;
            } else {
                let y = b[j];
                proof {
                    assert(ra =~= Seq::<(int, int)>::empty());
                    assert(rb[0] == other@[j as int]);
                    assert(other@[j as int] == (y.0 as int, y.1 as int));
                    assert(mul_factors(ra, rb) == rb);
                    assert(rb =~= seq![rb[0]] + other@.skip(j + 1 as int));
                    assert(mul_factors(ra, other@.skip(j + 1 as int)) == other@.skip(j + 1 as int));
                    assert(facs(res@.push(y)) =~= facs(res@).push(rb[0]));
                    assert(facs(res@.push(y)) + mul_factors(ra, other@.skip(j + 1 as int))
                        =~= facs(res@) + mul_factors(ra, rb));
                }
                res.push(y);
                j += 1;
            }
        }
        let out = Registers(res);
        proof {
            let ra = self@.skip(i as int);
            let rb = other@.skip(j as int);
            assert(ra =~= Seq::<(int, int)>::empty());
            assert(rb =~= Seq::<(int, int)>::empty());
            assert(mul_factors(ra, rb) == rb);
            assert(facs(res@) + mul_factors(ra, rb) =~= facs(res@));
            assert(out@ == mul_factors(self@, other@));
            lemma_mul_factors_props(self@, other@);
            assert forall|p: int| #[trigger] exp_of(self@, p) + exp_of(other@, p) <= u32::MAX by {
                assert(exp_of(mul_factors(self@, other@), p) == exp_of(self@, p) + exp_of(
                    other@,
                    p,
                ));
                assert(forall|k: int|
                    0 <= k < out@.len() ==> (#[trigger] out@[k]).1 <= u32::MAX);
                lemma_exp_upper(out@, p, u32::MAX as int);
            }
        }
        Some(out)
    }

    /// Multiplication of register values: exponents of matching primes add.
    pub fn multiply(&self, other: &Registers) -> (r: Registers)
        requires
            self.wf(),
            other.wf(),
            mul_fits(self@, other@),
        ensures
            r.wf(),
            r@ == mul_factors(self@, other@),
    {
        match self.try_multiply(other) {
            Some(r) => r,
            None => {
                proof {
                    assert(false);
                }
                Registers(Vec::new())
            },
        }
    }

    /// Exact division: `Some` exactly when `by` divides this value, with
    /// zero-exponent entries dropped from the quotient.
    pub fn try_divide(&self, by: &Registers) -> (r: Option<Registers>)
        requires
            self.wf(),
            by.wf(),
        ensures
            r is Some <==> div_factors(self@, by@) is Some,
            r matches Some(q) ==> q.wf() && div_factors(self@, by@) == Some(q@),
    {
        let a = &self.0;
        let b = &by.0;
        let mut res: Vec<(u64, u32)> = Vec::new();
        let mut i: usize = 0;
        let mut j: usize = 0;
        proof {
            assert(self@.skip(0) =~= self@);
            assert(by@.skip(0) =~= by@);
            match div_factors(self@, by@) {
                Some(q) => {
                    assert(facs(res@) + q =~= q);
                },
                None => {},
            }
        }
        while j < b.len()
            invariant
                self.wf(),
                by.wf(),
                a == &self.0,
                b == &by.0,
                i <= a.len(),
                j <= b.len(),
                div_factors(self@, by@) == match div_factors(
                    self@.skip(i as int),
                    by@.skip(j as int),
                ) {
                    Some(q) => Some(facs(res@) + q),
                    None => None::<Seq<(int, int)>>,
                },
            decreases a.len() - i + b.len() - j,
        {
            let ghost ra = self@.skip(i as int);
            let ghost rb = by@.skip(j as int);
            if i >= a.len() {
                proof {
                    assert(ra =~= Seq::<(int, int)>::empty());
                    assert(rb.len() > 0);
                    assert(div_factors(ra, rb) is None);
                }
                return None;
            }
            let x = a[i];
            let y = b[j];
            proof {
                assert(ra[0] == self@[i as int]);
                assert(rb[0] == by@[j as int]);
                assert(self@[i as int] == (x.0 as int, x.1 as int));
                assert(by@[j as int] == (y.0 as int, y.1 as int));
            }
            if x.0 < y.0 {
                proof {
                    assert(ra.drop_first() =~= self@.skip(i + 1 as int));
                    assert(facs(res@.push(x)) =~= facs(res@).push(ra[0]));
                    assert forall|q2: Seq<(int, int)>|
                        div_factors(self@.skip(i + 1 as int), rb) == Some(q2) implies facs(
                        res@.push(x),
                    ) + q2 =~= facs(res@) + (seq![ra[0]] + q2) by {}
                    match div_factors(ra.drop_first(), rb) {
                        Some(q2) => {
                            assert(div_factors(ra, rb) == Some(seq![ra[0]] + q2));
                            assert(facs(res@.push(x)) + q2 =~= facs(res@) + (seq![ra[0]] + q2));
                        },
                        None => {
                            assert(div_factors(ra, rb) is None);
                        },
                    }
                }
                res.push(x);
                i += 1;
            } else if x.0 > y.0 {
                proof {
                    assert(div_factors(ra, rb) is None);
                }
                return None;
            } else if x.1 < y.1 {
                proof {
                    assert(div_factors(ra, rb) is None);
                }
                return None;
            } else if x.1 == y.1 {
                proof {
                    assert(ra.drop_first() =~= self@.skip(i + 1 as int));
                    assert(rb.drop_first() =~= by@.skip(j + 1 as int));
                    assert(div_factors(ra, rb) == div_factors(ra.drop_first(), rb.drop_first()));
                }
                i += 1;
                j += 1;
            } else {
                let e: u32 = x.1 - y.1;
                proof {
                    assert(ra.drop_first() =~= self@.skip(i + 1 as int));
                    assert(rb.drop_first() =~= by@.skip(j + 1 as int));
                    let h = (ra[0].0, ra[0].1 - rb[0].1);
                    assert(facs(res@.push((x.0, e))) =~= facs(res@).push(h));
                    match div_factors(ra.drop_first(), rb.drop_first()) {
                        Some(q2) => {
                            assert(div_factors(ra, rb) == Some(seq![h] + q2));
                            assert(facs(res@.push((x.0, e))) + q2 =~= facs(res@) + (seq![h] + q2));
                        },
                        None => {
                            assert(div_factors(ra, rb) is None);
                        },
                    }
                }
                res.push((x.0, e));
                i += 1;
                j += 1;
            }
        }
        // flush the remaining dividend entries
        let ghost j0 = j as int;
        while i < a.len()
            invariant
                self.wf(),
                by.wf(),
                a == &self.0,
                b == &by.0,
                i <= a.len(),
                j0 == b.len(),
                div_factors(self@, by@) == match div_factors(self@.skip(i as int), by@.skip(j0)) {
                    Some(q) => Some(facs(res@) + q),
                    None => None::<Seq<(int, int)>>,
                },
            decreases a.len() - i,
        {
            let x = a[i];
            proof {
                let ra = self@.skip(i as int);
                let rb = by@.skip(j0);
                assert(rb =~= Seq::<(int, int)>::empty());
                assert(div_factors(ra, rb) == Some(ra));
                assert(ra[0] == self@[i as int]);
                assert(self@[i as int] == (x.0 as int, x.1 as int));
                assert(ra =~= seq![ra[0]] + self@.skip(i + 1 as int));
                assert(div_factors(self@.skip(i + 1 as int), rb) == Some(self@.skip(i + 1 as int)));
                assert(facs(res@.push(x)) =~= facs(res@).push(ra[0]));
                assert(facs(res@.push(x)) + self@.skip(i + 1 as int) =~= facs(res@) + ra);
            }
            res.push(x);
            i += 1;
        }
        proof {
            let ra = self@.skip(i as int);
            let rb = by@.skip(j0);
            assert(ra =~= Seq::<(int, int)>::empty());
            assert(rb =~= Seq::<(int, int)>::empty());
            assert(div_factors(ra, rb) == Some(ra));
            assert(facs(res@) + ra =~= facs(res@));
        }
        let out = Registers(res);
        proof {
            assert(div_factors(self@, by@) == Some(out@));
            lemma_div_factors_props(self@, by@);
        }
        Some(out)
    }
}

/// Multiplying any register value by the identity gives back the same value.
pub proof fn lemma_multiply_identity(a: Seq<(int, int)>)
    requires
        wf_factors(a),
    ensures
        mul_factors(a, Seq::<(int, int)>::empty()) == a,
        mul_factors(Seq::<(int, int)>::empty(), a) == a,
{
}

/// When `b` exactly divides `a`, multiplying the quotient by `b` restores `a`.
pub proof fn lemma_division_inverse(a: Seq<(int, int)>, b: Seq<(int, int)>, q: Seq<(int, int)>)
    requires
        wf_factors(a),
        wf_factors(b),
        div_factors(a, b) == Some(q),
    ensures
        mul_factors(q, b) == a,
{
    lemma_div_factors_props(a, b);
    lemma_mul_factors_props(q, b);
    assert forall|p: int| #[trigger] exp_of(mul_factors(q, b), p) == exp_of(a, p) by {
        assert(exp_of(q, p) == exp_of(a, p) - exp_of(b, p));
    }
    lemma_canonical_factors(mul_factors(q, b), a);
}

/// Division fails whenever the divisor carries a higher exponent of some
/// prime than the dividend.
pub proof fn lemma_division_failure(a: Seq<(int, int)>, b: Seq<(int, int)>, p: int)
    requires
        wf_factors(a),
        wf_factors(b),
        exp_of(b, p) > exp_of(a, p),
    ensures
        div_factors(a, b) is None,
{
    lemma_div_factors_props(a, b);
}

} // verus!
