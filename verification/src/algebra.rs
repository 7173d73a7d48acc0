//! The free abelian group of exponent maps.
//!
//! An `ExponentMap` is a finite mapping from a `u64` key (an arena identity)
//! to a nonzero `i64` exponent, stored as an association list strictly sorted
//! by key.  Multiplication adds exponents pointwise, division subtracts them,
//! and entries whose exponent becomes zero are dropped, so the representation
//! is canonical: two maps are semantically equal exactly when their stored
//! lists are equal.

use vstd::prelude::*;

verus! {

/// The exponent a map assigns to a key, with absent keys read as zero.
pub open spec fn exp_of(m: Map<u64, int>, k: u64) -> int {
    if m.dom().contains(k) {
        m[k]
    } else {
        0
    }
}

/// Pointwise product of two abstract exponent maps: exponents add and
/// zero entries are dropped.
pub open spec fn mul_map(a: Map<u64, int>, b: Map<u64, int>) -> Map<u64, int> {
    Map::new(|k: u64| exp_of(a, k) + exp_of(b, k) != 0, |k: u64| exp_of(a, k) + exp_of(b, k))
}

/// Pointwise quotient of two abstract exponent maps.
pub open spec fn div_map(a: Map<u64, int>, b: Map<u64, int>) -> Map<u64, int> {
    Map::new(|k: u64| exp_of(a, k) - exp_of(b, k) != 0, |k: u64| exp_of(a, k) - exp_of(b, k))
}

/// A well-formed abstract exponent map stores no zero exponent.
pub open spec fn wf_map(m: Map<u64, int>) -> bool {
    forall|k: u64| m.dom().contains(k) ==> m[k] != 0
}

/// The exponent a stored pair list assigns to a key: the sum of the
/// exponents of the entries carrying that key (for a well-formed list
/// there is at most one).
pub open spec fn seq_exp(s: Seq<(u64, i64)>, k: u64) -> int
    decreases s.len(),
{
    if s.len() == 0 {
        0
    } else {
        (if s[0].0 == k {
            s[0].1 as int
        } else {
            0
        }) + seq_exp(s.skip(1), k)
    }
}

/// A well-formed pair list is strictly sorted by key and zero-free.
pub open spec fn wf_pairs(s: Seq<(u64, i64)>) -> bool {
    &&& forall|i: int, j: int| 0 <= i < j < s.len() ==> (#[trigger] s[i]).0 < (#[trigger] s[j]).0
    &&& forall|i: int| 0 <= i < s.len() ==> (#[trigger] s[i]).1 != 0
}

/// A key absent from every entry contributes exponent zero.
pub proof fn lemma_seq_exp_absent(s: Seq<(u64, i64)>, k: u64)
    requires
        forall|i: int| 0 <= i < s.len() ==> (#[trigger] s[i]).0 != k,
    ensures
        seq_exp(s, k) == 0,
    decreases s.len(),
{
    if s.len() > 0 {
        assert(forall|i: int| 0 <= i < s.skip(1).len() ==> (#[trigger] s.skip(1)[i]).0 != k);
        lemma_seq_exp_absent(s.skip(1), k);
    }
}

/// In a well-formed list the exponent of a present key is its stored value.
pub proof fn lemma_seq_exp_at(s: Seq<(u64, i64)>, i: int)
    requires
        wf_pairs(s),
        0 <= i < s.len(),
    ensures
        seq_exp(s, s[i].0) == s[i].1 as int,
    decreases s.len(),
{
    let k = s[i].0;
    if i == 0 {
        assert(forall|j: int| 0 <= j < s.skip(1).len() ==> (#[trigger] s.skip(1)[j]).0 != k);
        lemma_seq_exp_absent(s.skip(1), k);
    } else {
        assert(wf_pairs(s.skip(1)));
        assert(s.skip(1)[i - 1] == s[i]);
        lemma_seq_exp_at(s.skip(1), i - 1);
        assert(s[0].0 != k);
    }
}

/// Appending one entry adds its exponent at its own key and nothing else.
pub proof fn lemma_seq_exp_push(s: Seq<(u64, i64)>, p: (u64, i64), k: u64)
    ensures
        seq_exp(s.push(p), k) == seq_exp(s, k) + (if p.0 == k {
            p.1 as int
        } else {
            0
        }),
    decreases s.len(),
{
    if s.len() == 0 {
        assert(s.push(p)[0] == p);
        assert(s.push(p).skip(1) =~= Seq::<(u64, i64)>::empty());
        assert(seq_exp(s.push(p).skip(1), k) == 0);
    } else {
        assert(s.push(p)[0] == s[0]);
        assert(s.push(p).skip(1) =~= s.skip(1).push(p));
        lemma_seq_exp_push(s.skip(1), p, k);
    }
}

/// Two well-formed pair lists that assign the same exponent to every key
/// are the same list: the representation is canonical.
pub proof fn lemma_canonical(s: Seq<(u64, i64)>, t: Seq<(u64, i64)>)
    requires
        wf_pairs(s),
        wf_pairs(t),
        forall|k: u64| seq_exp(s, k) == seq_exp(t, k),
    ensures
        s == t,
    decreases s.len() + t.len(),
{
    if s.len() == 0 && t.len() == 0 {
        assert(s =~= t);
    } else if s.len() == 0 {
        lemma_seq_exp_at(t, 0);
        assert(seq_exp(s, t[0].0) == 0);
        assert(false);
    } else if t.len() == 0 {
        lemma_seq_exp_at(s, 0);
        assert(seq_exp(t, s[0].0) == 0);
        assert(false);
    } else {
        let ks = s[0].0;
        let kt = t[0].0;
        lemma_seq_exp_at(s, 0);
        lemma_seq_exp_at(t, 0);
        if ks < kt {
            assert(forall|i: int| 0 <= i < t.len() ==> (#[trigger] t[i]).0 != ks);
            lemma_seq_exp_absent(t, ks);
            assert(false);
        }
        if kt < ks {
            assert(forall|i: int| 0 <= i < s.len() ==> (#[trigger] s[i]).0 != kt);
            lemma_seq_exp_absent(s, kt);
            assert(false);
        }
        assert(wf_pairs(s.skip(1)));
        assert(wf_pairs(t.skip(1)));
        assert forall|k: u64| seq_exp(s.skip(1), k) == seq_exp(t.skip(1), k) by {
            if k == ks {
                assert(forall|i: int| 0 <= i < s.skip(1).len() ==> (#[trigger] s.skip(1)[i]).0 != k);
                assert(forall|i: int| 0 <= i < t.skip(1).len() ==> (#[trigger] t.skip(1)[i]).0 != k);
                lemma_seq_exp_absent(s.skip(1), k);
                lemma_seq_exp_absent(t.skip(1), k);
            } else {
                assert(seq_exp(s, k) == seq_exp(s.skip(1), k));
                assert(seq_exp(t, k) == seq_exp(t.skip(1), k));
            }
        }
        lemma_canonical(s.skip(1), t.skip(1));
        assert(s[0] == t[0]);
        assert(s.len() == t.len());
        assert forall|x: int| 0 <= x < s.len() implies s[x] == t[x] by {
            if x > 0 {
                assert(s[x] == s.skip(1)[x - 1]);
                assert(t[x] == t.skip(1)[x - 1]);
            }
        }
        assert(s =~= t);
    }
}

/// The absolute value of an integer.
pub open spec fn iabs(x: int) -> int {
    if x < 0 {
        -x
    } else {
        x
    }
}

/// Absolute values are multiplicative.
pub proof fn lemma_iabs_mul(x: int, y: int)
    ensures
        iabs(x * y) == iabs(x) * iabs(y),
{
    if x >= 0 && y >= 0 {
        assert(x * y >= 0) by (nonlinear_arith)
            requires
                x >= 0,
                y >= 0,
        ;
    } else if x >= 0 && y < 0 {
        assert(x * y <= 0 && x * (-y) == -(x * y)) by (nonlinear_arith)
            requires
                x >= 0,
                y < 0,
        ;
    } else if x < 0 && y >= 0 {
        assert(x * y <= 0 && (-x) * y == -(x * y)) by (nonlinear_arith)
            requires
                x < 0,
                y >= 0,
        ;
    } else {
        assert(x * y >= 0 && (-x) * (-y) == x * y) by (nonlinear_arith)
            requires
                x < 0,
                y < 0,
        ;
    }
}

/// Any well-formed pair list assigns every key an exponent that a
/// machine integer can carry.
pub proof fn lemma_seq_exp_bounds(s: Seq<(u64, i64)>, k: u64)
    requires
        wf_pairs(s),
    ensures
        i64::MIN <= seq_exp(s, k) <= i64::MAX,
{
    if exists|i: int| 0 <= i < s.len() && (#[trigger] s[i]).0 == k {
        let i = choose|i: int| 0 <= i < s.len() && (#[trigger] s[i]).0 == k;
        lemma_seq_exp_at(s, i);
    } else {
        lemma_seq_exp_absent(s, k);
    }
}

/// The exponent a product assigns to a key is the sum of the factors'.
pub proof fn lemma_exp_of_mul(a: Map<u64, int>, b: Map<u64, int>, k: u64)
    ensures
        exp_of(mul_map(a, b), k) == exp_of(a, k) + exp_of(b, k),
{
}

/// The exponent a quotient assigns to a key is the difference of the
/// operands'.
pub proof fn lemma_exp_of_div(a: Map<u64, int>, b: Map<u64, int>, k: u64)
    ensures
        exp_of(div_map(a, b), k) == exp_of(a, k) - exp_of(b, k),
{
}

/// Group law: the unitless map is a multiplicative identity.
pub proof fn lemma_multiply_identity(a: Map<u64, int>)
    requires
        wf_map(a),
    ensures
        mul_map(a, Map::<u64, int>::empty()) == a,
{
    assert(mul_map(a, Map::<u64, int>::empty()) =~= a);
}

/// Group law: multiplication is commutative.
pub proof fn lemma_multiply_commutative(a: Map<u64, int>, b: Map<u64, int>)
    ensures
        mul_map(a, b) == mul_map(b, a),
{
    assert(mul_map(a, b) =~= mul_map(b, a));
}

/// Group law: multiplication is associative.
pub proof fn lemma_multiply_associative(a: Map<u64, int>, b: Map<u64, int>, c: Map<u64, int>)
    ensures
        mul_map(mul_map(a, b), c) == mul_map(a, mul_map(b, c)),
{
    assert forall|k: u64|
        exp_of(mul_map(mul_map(a, b), c), k) == exp_of(mul_map(a, mul_map(b, c)), k) by {
        lemma_exp_of_mul(a, b, k);
        lemma_exp_of_mul(mul_map(a, b), c, k);
        lemma_exp_of_mul(b, c, k);
        lemma_exp_of_mul(a, mul_map(b, c), k);
    }
    assert(mul_map(mul_map(a, b), c) =~= mul_map(a, mul_map(b, c)));
}

/// Group law: dividing a product by one factor leaves the other.
pub proof fn lemma_divide_multiply(a: Map<u64, int>, b: Map<u64, int>)
    requires
        wf_map(a),
    ensures
        div_map(mul_map(a, b), b) == a,
{
    assert forall|k: u64| exp_of(div_map(mul_map(a, b), b), k) == exp_of(a, k) by {
        lemma_exp_of_mul(a, b, k);
        lemma_exp_of_div(mul_map(a, b), b, k);
    }
    assert(div_map(mul_map(a, b), b) =~= a);
}

/// Normalization law: a product stores no zero exponent; in particular two
/// exponents that cancel leave no entry behind for their key.
pub proof fn lemma_multiply_normalized(a: Map<u64, int>, b: Map<u64, int>, k: u64)
    ensures
        exp_of(a, k) + exp_of(b, k) == 0 ==> !mul_map(a, b).dom().contains(k),
        wf_map(mul_map(a, b)),
{
}

/// The canonical sorted merge of two well-formed pair lists, combining
/// exponents at shared keys and dropping the ones that cancel.
pub open spec fn merge_rec(s: Seq<(u64, i64)>, t: Seq<(u64, i64)>) -> Seq<(u64, i64)>
    decreases s.len() + t.len(),
{
    if s.len() == 0 {
        t
    } else if t.len() == 0 {
        s
    } else if s[0].0 < t[0].0 {
        seq![s[0]] + merge_rec(s.skip(1), t)
    } else if t[0].0 < s[0].0 {
        seq![t[0]] + merge_rec(s, t.skip(1))
    } else if s[0].1 + t[0].1 == 0 {
        merge_rec(s.skip(1), t.skip(1))
    } else {
        seq![(s[0].0, (s[0].1 + t[0].1) as i64)] + merge_rec(s.skip(1), t.skip(1))
    }
}

/// The merge of two well-formed lists is well-formed, carries only keys of
/// its operands, and assigns every key the sum of the operands' exponents.
pub proof fn lemma_merge_rec(s: Seq<(u64, i64)>, t: Seq<(u64, i64)>)
    requires
        wf_pairs(s),
        wf_pairs(t),
        forall|k: u64| i64::MIN <= #[trigger] seq_exp(s, k) + seq_exp(t, k) <= i64::MAX,
    ensures
        wf_pairs(merge_rec(s, t)),
        forall|k: u64| #[trigger] seq_exp(merge_rec(s, t), k) == seq_exp(s, k) + seq_exp(t, k),
        forall|i: int|
            0 <= i < merge_rec(s, t).len() ==> seq_exp(s, (#[trigger] merge_rec(s, t)[i]).0) != 0
                || seq_exp(t, merge_rec(s, t)[i].0) != 0,
    decreases s.len() + t.len(),
{
    let m = merge_rec(s, t);
    if s.len() == 0 {
        assert forall|k: u64| #[trigger] seq_exp(m, k) == seq_exp(s, k) + seq_exp(t, k) by {}
        assert forall|i: int| 0 <= i < m.len() implies seq_exp(s, (#[trigger] m[i]).0) != 0
            || seq_exp(t, m[i].0) != 0 by {
            lemma_seq_exp_at(t, i);
        }
    } else if t.len() == 0 {
        assert forall|i: int| 0 <= i < m.len() implies seq_exp(s, (#[trigger] m[i]).0) != 0
            || seq_exp(t, m[i].0) != 0 by {
            lemma_seq_exp_at(s, i);
        }
    } else {
        assert(wf_pairs(s.skip(1)));
        assert(wf_pairs(t.skip(1)));
        let k0s = s[0].0;
        let k0t = t[0].0;
        lemma_seq_exp_at(s, 0);
        lemma_seq_exp_at(t, 0);
        assert forall|i: int| 0 <= i < s.skip(1).len() implies (#[trigger] s.skip(1)[i]).0
            != k0s by {
            assert(s.skip(1)[i] == s[i + 1]);
        }
        lemma_seq_exp_absent(s.skip(1), k0s);
        assert forall|i: int| 0 <= i < t.skip(1).len() implies (#[trigger] t.skip(1)[i]).0
            != k0t by {
            assert(t.skip(1)[i] == t[i + 1]);
        }
        lemma_seq_exp_absent(t.skip(1), k0t);
        if k0s < k0t {
            assert forall|k: u64|
                i64::MIN <= #[trigger] seq_exp(s.skip(1), k) + seq_exp(t, k) <= i64::MAX by {
                if k == k0s {
                    lemma_seq_exp_bounds(t, k);
                } else {
                    assert(seq_exp(s, k) == seq_exp(s.skip(1), k));
                }
            }
            lemma_merge_rec(s.skip(1), t);
            let m1 = merge_rec(s.skip(1), t);
            assert(m =~= seq![s[0]] + m1);
            assert(m[0] == s[0]);
            assert(m.skip(1) =~= m1);
            assert forall|k: u64| #[trigger] seq_exp(m, k) == seq_exp(s, k) + seq_exp(t, k) by {
                assert(seq_exp(m1, k) == seq_exp(s.skip(1), k) + seq_exp(t, k));
                assert(seq_exp(m.skip(1), k) == seq_exp(m1, k));
                assert(seq_exp(m, k) == (if m[0].0 == k {
                    m[0].1 as int
                } else {
                    0
                }) + seq_exp(m.skip(1), k));
                assert(seq_exp(s, k) == (if s[0].0 == k {
                    s[0].1 as int
                } else {
                    0
                }) + seq_exp(s.skip(1), k));
                if k == k0s {
                    lemma_seq_exp_absent(s.skip(1), k);
                }
            }
            assert forall|i: int| 0 <= i < m.len() implies seq_exp(s, (#[trigger] m[i]).0) != 0
                || seq_exp(t, m[i].0) != 0 by {
                if i > 0 {
                    assert(m[i] == m1[i - 1]);
                    if seq_exp(s.skip(1), m1[i - 1].0) != 0 {
                        assert(m1[i - 1].0 != k0s);
                        assert(seq_exp(s, m1[i - 1].0) == seq_exp(s.skip(1), m1[i - 1].0));
                    }
                }
            }
            assert forall|i: int, j: int| 0 <= i < j < m.len() implies (#[trigger] m[i]).0
                < (#[trigger] m[j]).0 by {
                if i == 0 {
                    let kj = m1[j - 1].0;
                    if seq_exp(s.skip(1), kj) != 0 {
                        lemma_key_present(s.skip(1), kj);
                        let w = choose|w: int|
                            0 <= w < s.skip(1).len() && (#[trigger] s.skip(1)[w]).0 == kj;
                        assert(s.skip(1)[w] == s[w + 1]);
                    } else {
                        lemma_key_present(t, kj);
                    }
                } else {
                    assert(m[i] == m1[i - 1] && m[j] == m1[j - 1]);
                }
            }
            assert(wf_pairs(m));
        } else if k0t < k0s {
            assert forall|k: u64|
                i64::MIN <= #[trigger] seq_exp(s, k) + seq_exp(t.skip(1), k) <= i64::MAX by {
                if k == k0t {
                    lemma_seq_exp_bounds(s, k);
                } else {
                    assert(seq_exp(t, k) == seq_exp(t.skip(1), k));
                }
            }
            lemma_merge_rec(s, t.skip(1));
            let m1 = merge_rec(s, t.skip(1));
            assert(m =~= seq![t[0]] + m1);
            assert(m[0] == t[0]);
            assert(m.skip(1) =~= m1);
            assert forall|k: u64| #[trigger] seq_exp(m, k) == seq_exp(s, k) + seq_exp(t, k) by {
                assert(seq_exp(m1, k) == seq_exp(s, k) + seq_exp(t.skip(1), k));
                assert(seq_exp(m.skip(1), k) == seq_exp(m1, k));
                assert(seq_exp(m, k) == (if m[0].0 == k {
                    m[0].1 as int
                } else {
                    0
                }) + seq_exp(m.skip(1), k));
                assert(seq_exp(t, k) == (if t[0].0 == k {
                    t[0].1 as int
                } else {
                    0
                }) + seq_exp(t.skip(1), k));
                if k == k0t {
                    lemma_seq_exp_absent(t.skip(1), k);
                }
            }
            assert forall|i: int| 0 <= i < m.len() implies seq_exp(s, (#[trigger] m[i]).0) != 0
                || seq_exp(t, m[i].0) != 0 by {
                if i > 0 {
                    assert(m[i] == m1[i - 1]);
                    if seq_exp(t.skip(1), m1[i - 1].0) != 0 {
                        assert(m1[i - 1].0 != k0t);
                        assert(seq_exp(t, m1[i - 1].0) == seq_exp(t.skip(1), m1[i - 1].0));
                    }
                }
            }
            assert forall|i: int, j: int| 0 <= i < j < m.len() implies (#[trigger] m[i]).0
                < (#[trigger] m[j]).0 by {
                if i == 0 {
                    let kj = m1[j - 1].0;
                    if seq_exp(s, kj) != 0 {
                        lemma_key_present(s, kj);
                    } else {
                        lemma_key_present(t.skip(1), kj);
                        let w = choose|w: int|
                            0 <= w < t.skip(1).len() && (#[trigger] t.skip(1)[w]).0 == kj;
                        assert(t.skip(1)[w] == t[w + 1]);
                    }
                } else {
                    assert(m[i] == m1[i - 1] && m[j] == m1[j - 1]);
                }
            }
            assert(wf_pairs(m));
        } else {
            assert forall|k: u64|
                i64::MIN <= #[trigger] seq_exp(s.skip(1), k) + seq_exp(t.skip(1), k)
                    <= i64::MAX by {
                if k == k0s {
                } else {
                    assert(seq_exp(s, k) == seq_exp(s.skip(1), k));
                    assert(seq_exp(t, k) == seq_exp(t.skip(1), k));
                }
            }
            lemma_merge_rec(s.skip(1), t.skip(1));
            let m1 = merge_rec(s.skip(1), t.skip(1));
            if s[0].1 + t[0].1 == 0 {
                assert(m == m1);
                assert forall|k: u64| #[trigger] seq_exp(m, k) == seq_exp(s, k) + seq_exp(
                    t,
                    k,
                ) by {
                    if k != k0s {
                        assert(seq_exp(s, k) == seq_exp(s.skip(1), k));
                        assert(seq_exp(t, k) == seq_exp(t.skip(1), k));
                    }
                }
                assert forall|i: int| 0 <= i < m.len() implies seq_exp(s, (#[trigger] m[i]).0)
                    != 0 || seq_exp(t, m[i].0) != 0 by {
                    if seq_exp(s.skip(1), m1[i].0) != 0 {
                        assert(m1[i].0 != k0s);
                        assert(seq_exp(s, m1[i].0) == seq_exp(s.skip(1), m1[i].0));
                    } else {
                        assert(m1[i].0 != k0t);
                        assert(seq_exp(t, m1[i].0) == seq_exp(t.skip(1), m1[i].0));
                    }
                }
            } else {
                let h = (s[0].0, (s[0].1 + t[0].1) as i64);
                assert(m =~= seq![h] + m1);
                assert(m[0] == h);
                assert(m.skip(1) =~= m1);
                assert(h.1 as int == s[0].1 + t[0].1);
                assert forall|k: u64| #[trigger] seq_exp(m, k) == seq_exp(s, k) + seq_exp(
                    t,
                    k,
                ) by {
                    assert(seq_exp(m1, k) == seq_exp(s.skip(1), k) + seq_exp(t.skip(1), k));
                    assert(seq_exp(m.skip(1), k) == seq_exp(m1, k));
                    assert(seq_exp(m, k) == (if m[0].0 == k {
                        m[0].1 as int
                    } else {
                        0
                    }) + seq_exp(m.skip(1), k));
                    assert(seq_exp(s, k) == (if s[0].0 == k {
                        s[0].1 as int
                    } else {
                        0
                    }) + seq_exp(s.skip(1), k));
                    assert(seq_exp(t, k) == (if t[0].0 == k {
                        t[0].1 as int
                    } else {
                        0
                    }) + seq_exp(t.skip(1), k));
                    if k == k0s {
                        lemma_seq_exp_absent(s.skip(1), k);
                        lemma_seq_exp_absent(t.skip(1), k);
                    }
                }
                assert forall|i: int| 0 <= i < m.len() implies seq_exp(s, (#[trigger] m[i]).0)
                    != 0 || seq_exp(t, m[i].0) != 0 by {
                    if i > 0 {
                        assert(m[i] == m1[i - 1]);
                        if seq_exp(s.skip(1), m1[i - 1].0) != 0 {
                            assert(m1[i - 1].0 != k0s);
                            assert(seq_exp(s, m1[i - 1].0) == seq_exp(s.skip(1), m1[i - 1].0));
                        } else {
                            assert(m1[i - 1].0 != k0t);
                            assert(seq_exp(t, m1[i - 1].0) == seq_exp(t.skip(1), m1[i - 1].0));
                        }
                    }
                }
                assert forall|i: int, j: int| 0 <= i < j < m.len() implies (#[trigger] m[i]).0
                    < (#[trigger] m[j]).0 by {
                    if i == 0 {
                        let kj = m1[j - 1].0;
                        if seq_exp(s.skip(1), kj) != 0 {
                            lemma_key_present(s.skip(1), kj);
                            let w = choose|w: int|
                                0 <= w < s.skip(1).len() && (#[trigger] s.skip(1)[w]).0 == kj;
                            assert(s.skip(1)[w] == s[w + 1]);
                        } else {
                            lemma_key_present(t.skip(1), kj);
                            let w = choose|w: int|
                                0 <= w < t.skip(1).len() && (#[trigger] t.skip(1)[w]).0 == kj;
                            assert(t.skip(1)[w] == t[w + 1]);
                        }
                    } else {
                        assert(m[i] == m1[i - 1] && m[j] == m1[j - 1]);
                    }
                }
                assert(wf_pairs(m));
            }
        }
    }
}

/// A key with a nonzero exponent is carried by some entry.
pub proof fn lemma_key_present(s: Seq<(u64, i64)>, k: u64)
    requires
        seq_exp(s, k) != 0,
    ensures
        exists|i: int| 0 <= i < s.len() && (#[trigger] s[i]).0 == k,
    decreases s.len(),
{
    if s.len() > 0 && s[0].0 != k {
        lemma_key_present(s.skip(1), k);
        let w = choose|i: int| 0 <= i < s.skip(1).len() && (#[trigger] s.skip(1)[i]).0 == k;
        assert(s[w + 1] == s.skip(1)[w]);
    }
}

/// A finite mapping from key to nonzero integer exponent, the element of
/// the group of compound units (or compound dimensions).
pub struct ExponentMap {
    pairs: Vec<(u64, i64)>,
}

impl View for ExponentMap {
    type V = Map<u64, int>;

    /// The abstract exponent map: every key the list does not carry reads
    /// as exponent zero and lies outside the domain.
    closed spec fn view(&self) -> Map<u64, int> {
        Map::new(|k: u64| seq_exp(self.pairs@, k) != 0, |k: u64| seq_exp(self.pairs@, k))
    }
}

impl ExponentMap {
    /// The stored pair list, strictly sorted by key, carrying no zero
    /// exponent.  It is the canonical representation of the map.
    pub closed spec fn pairs_seq(&self) -> Seq<(u64, i64)> {
        self.pairs@
    }

    /// Well-formedness: the stored list is strictly sorted and zero-free.
    pub open spec fn wf(&self) -> bool {
        wf_pairs(self.pairs_seq())
    }

    /// The view reads every key exactly as the stored list does.
    pub proof fn lemma_view_exp(&self)
        ensures
            forall|k: u64| exp_of(self@, k) == seq_exp(self.pairs_seq(), k),
            wf_map(self@),
    {
    }

    /// The abstract map of a well-formed list determines the list.
    pub proof fn lemma_view_canonical(&self, other: &Self)
        requires
            self.wf(),
            other.wf(),
            self@ == other@,
        ensures
            self.pairs_seq() == other.pairs_seq(),
    {
        self.lemma_view_exp();
        other.lemma_view_exp();
        assert forall|k: u64| seq_exp(self.pairs_seq(), k) == seq_exp(other.pairs_seq(), k) by {
            assert(exp_of(self@, k) == seq_exp(self.pairs_seq(), k));
            assert(exp_of(other@, k) == seq_exp(other.pairs_seq(), k));
        }
        lemma_canonical(self.pairs_seq(), other.pairs_seq());
    }

    /// The group identity: the empty mapping.
    pub fn unitless() -> (r: Self)
        ensures
            r.wf(),
            r@ == Map::<u64, int>::empty(),
            r.pairs_seq() == Seq::<(u64, i64)>::empty(),
    {
        let r = ExponentMap { pairs: Vec::new() };
        proof {
            assert(r@ =~= Map::<u64, int>::empty());
        }
        r
    }

    /// The mapping carrying one key with one nonzero exponent.
    pub fn single(k: u64, e: i64) -> (r: Self)
        requires
            e != 0,
        ensures
            r.wf(),
            forall|q: u64| exp_of(r@, q) == (if q == k {
                e as int
            } else {
                0
            }),
    {
        let mut pairs: Vec<(u64, i64)> = Vec::new();
        pairs.push((k, e));
        let r = ExponentMap { pairs };
        proof {
            r.lemma_view_exp();
            assert(r.pairs_seq().len() == 1);
            assert(r.pairs_seq()[0] == (k, e));
            assert forall|q: u64| seq_exp(r.pairs_seq(), q) == (if q == k {
                e as int
            } else {
                0
            }) by {
                assert(r.pairs_seq().skip(1) =~= Seq::<(u64, i64)>::empty());
                assert(seq_exp(r.pairs_seq().skip(1), q) == 0);
            }
        }
        r
    }

    /// How many keys the mapping carries.
    pub fn len(&self) -> (r: usize)
        ensures
            r == self.pairs_seq().len(),
    {
        self.pairs.len()
    }

    /// The entry at one position of the canonical (sorted) list.
    pub fn pair_at(&self, i: usize) -> (r: (u64, i64))
        requires
            i < self.pairs_seq().len(),
        ensures
            r == self.pairs_seq()[i as int],
    {
        (self.pairs[i].0, self.pairs[i].1)
    }

    /// Read-only access to the canonical component list, for callers that
    /// fold over the components (such as conversion-ratio computation).
    pub fn components(&self) -> (r: &Vec<(u64, i64)>)
        ensures
            r@ == self.pairs_seq(),
    {
        &self.pairs
    }

    /// Group multiplication: for every key the exponents add, and keys
    /// whose exponents cancel are dropped.
    pub fn multiply(&self, other: &Self) -> (r: Self)
        requires
            self.wf(),
            other.wf(),
            forall|k: u64| i64::MIN <= #[trigger] exp_of(self@, k) + exp_of(other@, k) <= i64::MAX,
        ensures
            r.wf(),
            forall|k: u64| #[trigger] exp_of(r@, k) == exp_of(self@, k) + exp_of(other@, k),
            r@ == mul_map(self@, other@),
    {
        let a = &self.pairs;
        let b = &other.pairs;
        let ghost sa = self.pairs_seq();
        let ghost sb = other.pairs_seq();
        proof {
            self.lemma_view_exp();
            other.lemma_view_exp();
            assert forall|k: u64| i64::MIN <= #[trigger] seq_exp(sa, k) + seq_exp(sb, k)
                <= i64::MAX by {
                assert(exp_of(self@, k) == seq_exp(sa, k));
                assert(exp_of(other@, k) == seq_exp(sb, k));
            }
        }
        let mut res: Vec<(u64, i64)> = Vec::new();
        let mut i: usize = 0;
        let mut j: usize = 0;
        while i < a.len() || j < b.len()
            invariant
                i <= sa.len(),
                j <= sb.len(),
                a@ == sa,
                b@ == sb,
                wf_pairs(sa),
                wf_pairs(sb),
                wf_pairs(res@),
                forall|k: u64| i64::MIN <= #[trigger] seq_exp(sa, k) + seq_exp(sb, k) <= i64::MAX,
                forall|k: u64| #[trigger] seq_exp(res@, k) == seq_exp(sa.take(i as int), k)
                    + seq_exp(sb.take(j as int), k),
                res@.len() > 0 && i < sa.len() ==> res@.last().0 < sa[i as int].0,
                res@.len() > 0 && j < sb.len() ==> res@.last().0 < sb[j as int].0,
            decreases sa.len() - i + sb.len() - j,
        {
            let ghost res0 = res@;
            let take_a = if i < a.len() && j < b.len() {
                a[i].0 <= b[j].0
            } else {
                i < a.len()
            };
            let take_b = if i < a.len() && j < b.len() {
                b[j].0 <= a[i].0
            } else {
                j < b.len()
            };
            let mut key: u64 = 0;
            let mut e: i64 = 0;
            if take_a && take_b {
                key = a[i].0;
                proof {
                    lemma_seq_exp_at(sa, i as int);
                    lemma_seq_exp_at(sb, j as int);
                }
                e = a[i].1 + b[j].1;
            } else if take_a {
                key = a[i].0;
                e = a[i].1;
            } else {
                key = b[j].0;
                e = b[j].1;
            }
            if e != 0 {
                res.push((key, e));
            }
            proof {
                if take_a {
                    assert(sa.take(i as int + 1) =~= sa.take(i as int).push(sa[i as int]));
                }
                if take_b {
                    assert(sb.take(j as int + 1) =~= sb.take(j as int).push(sb[j as int]));
                }
                assert forall|k: u64| #[trigger] seq_exp(res@, k) == seq_exp(
                    sa.take(i as int + if take_a {
                        1int
                    } else {
                        0int
                    }),
                    k,
                ) + seq_exp(
                    sb.take(j as int + if take_b {
                        1int
                    } else {
                        0int
                    }),
                    k,
                ) by {
                    if e != 0 {
                        lemma_seq_exp_push(res0, (key, e), k);
                    }
                    if take_a {
                        lemma_seq_exp_push(sa.take(i as int), sa[i as int], k);
                    }
                    if take_b {
                        lemma_seq_exp_push(sb.take(j as int), sb[j as int], k);
                    }
                }
                if e != 0 {
                    assert(wf_pairs(res@)) by {
                        assert(forall|x: int| 0 <= x < res0.len() ==> res@[x] == res0[x]);
                    }
                }
            }
            if take_a {
                i = i + 1;
            }
            if take_b {
                j = j + 1;
            }
        }
        proof {
            assert(sa.take(sa.len() as int) =~= sa);
            assert(sb.take(sb.len() as int) =~= sb);
        }
        let r = ExponentMap { pairs: res };
        proof {
            r.lemma_view_exp();
            assert(r.pairs_seq() == res@);
            assert forall|k: u64| #[trigger] exp_of(r@, k) == exp_of(self@, k) + exp_of(
                other@,
                k,
            ) by {
                assert(exp_of(r@, k) == seq_exp(r.pairs_seq(), k));
                assert(exp_of(self@, k) == seq_exp(sa, k));
                assert(exp_of(other@, k) == seq_exp(sb, k));
            }
            assert(r@ =~= mul_map(self@, other@));
        }
        r
    }

    /// The pointwise inverse: every exponent is negated.
    pub fn negate(&self) -> (r: Self)
        requires
            self.wf(),
            forall|k: u64| #[trigger] exp_of(self@, k) > i64::MIN,
        ensures
            r.wf(),
            forall|k: u64| #[trigger] exp_of(r@, k) == -exp_of(self@, k),
    {
        let ghost sa = self.pairs_seq();
        proof {
            self.lemma_view_exp();
        }
        let n = self.pairs.len();
        let mut res: Vec<(u64, i64)> = Vec::new();
        let mut i: usize = 0;
        while i < n
            invariant
                i <= n,
                n == sa.len(),
                self.pairs@ == sa,
                wf_pairs(sa),
                forall|k: u64| #[trigger] seq_exp(sa, k) > i64::MIN,
                res@.len() == i,
                forall|x: int| 0 <= x < i ==> #[trigger] res@[x] == (sa[x].0, (-sa[x].1) as i64),
            decreases n - i,
        {
            proof {
                lemma_seq_exp_at(sa, i as int);
            }
            let e = self.pairs[i].1;
            res.push((self.pairs[i].0, -e));
            i = i + 1;
        }
        let r = ExponentMap { pairs: res };
        proof {
            assert forall|x: int| 0 <= x < sa.len() implies (#[trigger] sa[x]).1 > i64::MIN by {
                lemma_seq_exp_at(sa, x);
                assert(exp_of(self@, sa[x].0) == seq_exp(sa, sa[x].0));
            }
            assert forall|x: int, y: int| 0 <= x < y < r.pairs_seq().len() implies (
            #[trigger] r.pairs_seq()[x]).0 < (#[trigger] r.pairs_seq()[y]).0 by {
                assert(r.pairs_seq()[x].0 == sa[x].0 && r.pairs_seq()[y].0 == sa[y].0);
            }
            assert(wf_pairs(r.pairs_seq()));
            lemma_seq_exp_elementwise_neg(sa, r.pairs_seq());
            r.lemma_view_exp();
            assert forall|k: u64| #[trigger] exp_of(r@, k) == -exp_of(self@, k) by {
                assert(exp_of(r@, k) == seq_exp(r.pairs_seq(), k));
                assert(exp_of(self@, k) == seq_exp(sa, k));
            }
        }
        r
    }

    /// Group division: for every key the exponents subtract, and keys whose
    /// exponents agree are dropped.
    pub fn divide(&self, other: &Self) -> (r: Self)
        requires
            self.wf(),
            other.wf(),
            forall|k: u64| #[trigger] exp_of(other@, k) > i64::MIN,
            forall|k: u64| i64::MIN <= #[trigger] exp_of(self@, k) - exp_of(other@, k) <= i64::MAX,
        ensures
            r.wf(),
            forall|k: u64| #[trigger] exp_of(r@, k) == exp_of(self@, k) - exp_of(other@, k),
            r@ == div_map(self@, other@),
    {
        let n = other.negate();
        let r = self.multiply(&n);
        proof {
            assert(r@ =~= div_map(self@, other@));
        }
        r
    }

    /// Raising to an integer power: every exponent is multiplied by it.
    pub fn scale(&self, p: i64) -> (r: Self)
        requires
            self.wf(),
            p != 0,
            forall|k: u64| i64::MIN <= p * #[trigger] exp_of(self@, k) <= i64::MAX,
        ensures
            r.wf(),
            forall|k: u64| #[trigger] exp_of(r@, k) == p * exp_of(self@, k),
    {
        let ghost sa = self.pairs_seq();
        proof {
            self.lemma_view_exp();
        }
        let n = self.pairs.len();
        let mut res: Vec<(u64, i64)> = Vec::new();
        let mut i: usize = 0;
        while i < n
            invariant
                i <= n,
                n == sa.len(),
                p != 0,
                self.pairs@ == sa,
                wf_pairs(sa),
                forall|k: u64| i64::MIN <= p * #[trigger] seq_exp(sa, k) <= i64::MAX,
                res@.len() == i,
                forall|x: int| 0 <= x < i ==> #[trigger] res@[x] == (
                    sa[x].0,
                    (p * sa[x].1) as i64,
                ),
            decreases n - i,
        {
            proof {
                lemma_seq_exp_at(sa, i as int);
                assert(p as int * (sa[i as int].1 as int) != 0) by (nonlinear_arith)
                    requires
                        p != 0,
                        sa[i as int].1 != 0,
                ;
            }
            let e = self.pairs[i].1;
            res.push((self.pairs[i].0, p * e));
            i = i + 1;
        }
        let r = ExponentMap { pairs: res };
        proof {
            assert forall|x: int| 0 <= x < sa.len() implies i64::MIN <= p * (#[trigger] sa[x]).1
                <= i64::MAX by {
                lemma_seq_exp_at(sa, x);
                assert(exp_of(self@, sa[x].0) == seq_exp(sa, sa[x].0));
            }
            assert forall|x: int| 0 <= x < r.pairs_seq().len() implies (
            #[trigger] r.pairs_seq()[x]).1 != 0 by {
                assert(r.pairs_seq()[x] == (sa[x].0, (p * sa[x].1) as i64));
                assert(p as int * (sa[x].1 as int) != 0) by (nonlinear_arith)
                    requires
                        p != 0,
                        sa[x].1 != 0,
                ;
            }
            assert forall|x: int, y: int| 0 <= x < y < r.pairs_seq().len() implies (
            #[trigger] r.pairs_seq()[x]).0 < (#[trigger] r.pairs_seq()[y]).0 by {
                assert(r.pairs_seq()[x].0 == sa[x].0 && r.pairs_seq()[y].0 == sa[y].0);
            }
            assert(wf_pairs(r.pairs_seq()));
            lemma_seq_exp_elementwise_scale(sa, r.pairs_seq(), p as int);
            r.lemma_view_exp();
            assert forall|k: u64| #[trigger] exp_of(r@, k) == p * exp_of(self@, k) by {
                assert(exp_of(r@, k) == seq_exp(r.pairs_seq(), k));
                assert(exp_of(self@, k) == seq_exp(sa, k));
            }
        }
        r
    }
}

/// Negating every stored exponent negates the exponent of every key.
pub proof fn lemma_seq_exp_elementwise_neg(s: Seq<(u64, i64)>, t: Seq<(u64, i64)>)
    requires
        s.len() == t.len(),
        forall|x: int| 0 <= x < s.len() ==> #[trigger] t[x] == (s[x].0, (-s[x].1) as i64),
        forall|x: int| 0 <= x < s.len() ==> (#[trigger] s[x]).1 > i64::MIN,
    ensures
        forall|k: u64| #[trigger] seq_exp(t, k) == -seq_exp(s, k),
    decreases s.len(),
{
    if s.len() > 0 {
        assert forall|x: int| 0 <= x < s.skip(1).len() implies #[trigger] t.skip(1)[x] == (
            s.skip(1)[x].0,
            (-s.skip(1)[x].1) as i64,
        ) && s.skip(1)[x].1 > i64::MIN by {
            assert(s.skip(1)[x] == s[x + 1]);
            assert(t.skip(1)[x] == t[x + 1]);
        }
        lemma_seq_exp_elementwise_neg(s.skip(1), t.skip(1));
        assert(t[0] == (s[0].0, (-s[0].1) as i64));
        assert(t[0].1 as int == -(s[0].1 as int));
        assert forall|k: u64| #[trigger] seq_exp(t, k) == -seq_exp(s, k) by {
            assert(seq_exp(t.skip(1), k) == -seq_exp(s.skip(1), k));
            assert(seq_exp(t, k) == (if t[0].0 == k {
                t[0].1 as int
            } else {
                0
            }) + seq_exp(t.skip(1), k));
            assert(seq_exp(s, k) == (if s[0].0 == k {
                s[0].1 as int
            } else {
                0
            }) + seq_exp(s.skip(1), k));
        }
    } else {
        assert forall|k: u64| #[trigger] seq_exp(t, k) == -seq_exp(s, k) by {
            assert(seq_exp(t, k) == 0);
            assert(seq_exp(s, k) == 0);
        }
    }
}

/// Multiplying every stored exponent by a factor multiplies the exponent
/// of every key by it.
pub proof fn lemma_seq_exp_elementwise_scale(s: Seq<(u64, i64)>, t: Seq<(u64, i64)>, p: int)
    requires
        s.len() == t.len(),
        forall|x: int| 0 <= x < s.len() ==> #[trigger] t[x] == (s[x].0, (p * s[x].1) as i64),
        forall|x: int| 0 <= x < s.len() ==> i64::MIN <= p * (#[trigger] s[x]).1 <= i64::MAX,
    ensures
        forall|k: u64| #[trigger] seq_exp(t, k) == p * seq_exp(s, k),
    decreases s.len(),
{
    if s.len() == 0 {
        assert forall|k: u64| #[trigger] seq_exp(t, k) == p * seq_exp(s, k) by {
            assert(p * 0 == 0) by (nonlinear_arith);
        }
    } else {
        assert forall|x: int| 0 <= x < s.skip(1).len() implies #[trigger] t.skip(1)[x] == (
            s.skip(1)[x].0,
            (p * s.skip(1)[x].1) as i64,
        ) && i64::MIN <= p * s.skip(1)[x].1 <= i64::MAX by {
            assert(s.skip(1)[x] == s[x + 1]);
            assert(t.skip(1)[x] == t[x + 1]);
        }
        lemma_seq_exp_elementwise_scale(s.skip(1), t.skip(1), p);
        assert(t[0] == (s[0].0, (p * s[0].1) as i64));
        assert(t[0].1 as int == p * s[0].1);
        assert forall|k: u64| #[trigger] seq_exp(t, k) == p * seq_exp(s, k) by {
            let h = if s[0].0 == k {
                s[0].1 as int
            } else {
                0
            };
            let rest = seq_exp(s.skip(1), k);
            assert(seq_exp(t.skip(1), k) == p * rest);
            assert(seq_exp(t, k) == (if t[0].0 == k {
                t[0].1 as int
            } else {
                0
            }) + seq_exp(t.skip(1), k));
            assert(seq_exp(s, k) == h + rest);
            assert(p * (h + rest) == p * h + p * rest) by (nonlinear_arith);
            if s[0].0 != k {
                assert(p * 0 == 0) by (nonlinear_arith);
            }
        }
    }
}

impl PartialEq for ExponentMap {
    /// Structural equality of the canonical lists; by canonicity this is
    /// exactly semantic equality of well-formed maps.
    fn eq(&self, other: &Self) -> (r: bool) {
        if self.pairs.len() != other.pairs.len() {
            return false;
        }
        let n = self.pairs.len();
        let mut i: usize = 0;
        while i < n
            invariant
                i <= n,
                n == self.pairs_seq().len(),
                n == other.pairs_seq().len(),
                forall|x: int| 0 <= x < i ==> self.pairs_seq()[x] == other.pairs_seq()[x],
            decreases n - i,
        {
            if self.pairs[i].0 != other.pairs[i].0 || self.pairs[i].1 != other.pairs[i].1 {
                return false;
            }
            i = i + 1;
        }
        proof {
            assert(self.pairs_seq() =~= other.pairs_seq());
        }
        true
    }
}

impl vstd::std_specs::cmp::PartialEqSpecImpl for ExponentMap {
    open spec fn obeys_eq_spec() -> bool {
        true
    }

    open spec fn eq_spec(&self, other: &Self) -> bool {
        self.pairs_seq() == other.pairs_seq()
    }
}

} // verus!
