//! Shannon entropy in base-2 fixed point.
//!
//! Every entropy in this crate is an unsigned integer counting units of
//! `1 / 65536` of a bit (16 fractional bits).  The binary logarithm is
//! computed exactly as specified by [`log2_fp`]: the integer part is
//! `floor(log2 x)` and the fractional bits come from repeated squaring of the
//! 32-fractional-bit mantissa, so the result is a deterministic truncation of
//! the real logarithm.

use vstd::prelude::*;
use vstd::arithmetic::div_mod::{
    lemma_div_denominator, lemma_div_is_ordered, lemma_div_multiples_vanish,
    lemma_multiply_divide_lt,
};
use vstd::arithmetic::power2::{lemma_pow2_adds, lemma_pow2_pos, lemma_pow2_strictly_increases,
    lemma2_to64, lemma2_to64_rest, pow2};
use vstd::arithmetic::mul::lemma_mul_inequality;

verus! {

/// One bit, in the fixed-point scale used for every entropy in this crate.
pub const FP_ONE: u64 = 65536;

/// `floor(log2 x)`, the position of the highest set bit.
pub open spec fn floor_log2(x: nat) -> nat
    decreases x,
{
    if x < 2 {
        0
    } else {
        1 + floor_log2(x / 2)
    }
}

/// The mantissa of `x` with 32 fractional bits: `x / 2^floor_log2(x)` scaled
/// by `2^32`, a value in `[2^32, 2^33)`.
pub open spec fn mantissa(x: nat) -> nat {
    (x * 0x1_0000_0000) / pow2(floor_log2(x))
}

/// `i` fractional bits of `log2` of a mantissa `m` (32 fractional bits),
/// extracted most-significant first by repeated squaring.
pub open spec fn frac_bits(m: nat, i: nat) -> nat
    decreases i,
{
    if i == 0 {
        0
    } else {
        let m2 = (m * m) / 0x1_0000_0000;
        if m2 >= 0x2_0000_0000 {
            pow2((i - 1) as nat) + frac_bits(m2 / 2, (i - 1) as nat)
        } else {
            frac_bits(m2, (i - 1) as nat)
        }
    }
}

/// `log2 x` in 16-bit fixed point; 0 for `x == 0`.
pub open spec fn log2_fp(x: nat) -> nat {
    if x < 1 {
        0
    } else {
        floor_log2(x) * 65536 + frac_bits(mantissa(x), 16)
    }
}

proof fn lemma_floor_log2_bound(x: nat)
    requires
        1 <= x,
    ensures
        pow2(floor_log2(x)) <= x < pow2(floor_log2(x) + 1),
    decreases x,
{
    if x < 2 {
        lemma2_to64();
    } else {
        lemma_floor_log2_bound(x / 2);
        let e = floor_log2(x / 2);
        lemma_pow2_adds(e, 1);
        lemma_pow2_adds(e + 1, 1);
        lemma2_to64();
        assert(pow2(e) <= x / 2 < pow2(e + 1));
        assert(pow2(e) * 2 <= (x / 2) * 2 <= x) by {
            lemma_mul_inequality(pow2(e) as int, (x / 2) as int, 2);
        };
        assert(x < (pow2(e + 1)) * 2) by {
            assert(x / 2 <= pow2(e + 1) - 1);
            assert(x <= 2 * (x / 2) + 1);
            lemma_mul_inequality((x / 2) as int, pow2(e + 1) - 1, 2);
        };
    }
}

proof fn lemma_floor_log2_max64(x: u64)
    requires
        x >= 1,
    ensures
        floor_log2(x as nat) <= 63,
{
    if floor_log2(x as nat) > 63 {
        lemma_floor_log2_bound(x as nat);
        lemma_pow2_strictly_increases(63, floor_log2(x as nat));
        lemma2_to64();
        lemma2_to64_rest();
        lemma_pow2_strictly_increases(63, 64);
        if floor_log2(x as nat) > 64 {
            lemma_pow2_strictly_increases(64, floor_log2(x as nat));
        }
        assert(false);
    }
}

/// Binary logarithm in 16-bit fixed point, computed exactly as [`log2_fp`]
/// specifies.
pub fn log2_fixed(x: u64) -> (r: u64)
    requires
        x >= 1,
    ensures
        r == log2_fp(x as nat),
        r <= 0x3FFFFF,
{
    let mut t: u64 = x;
    let mut e: u64 = 0;
    while t >= 2
        invariant
            1 <= t <= x,
            floor_log2(x as nat) == e + floor_log2(t as nat),
            e <= 63,
        decreases t,
    {
        proof {
            lemma_floor_log2_max64(x);
        }
        t = t / 2;
        e = e + 1;
    }
    assert(floor_log2(x as nat) == e);

    // m == x * 2^32 / 2^e, the mantissa in [2^32, 2^33).
    let mut m: u128 = (x as u128) * 0x1_0000_0000;
    proof {
        lemma2_to64();
        vstd::arithmetic::div_mod::lemma_div_basics((x as nat * 0x1_0000_0000) as int);
    }
    let mut j: u64 = 0;
    while j < e
        invariant
            j <= e,
            e == floor_log2(x as nat),
            e <= 63,
            x >= 1,
            m == (x as nat * 0x1_0000_0000) / pow2(j as nat),
            m >= 1,
        decreases e - j,
    {
        proof {
            lemma_pow2_pos(j as nat);
            lemma_div_denominator((x as nat * 0x1_0000_0000) as int, pow2(j as nat) as int, 2);
            lemma_pow2_adds(j as nat, 1);
            lemma2_to64();
            assert(pow2((j + 1) as nat) == pow2(j as nat) * 2);
            lemma_pow2_strictly_increases(j as nat, (e + 1) as nat);
            lemma_floor_log2_bound(x as nat);
            assert(pow2(e as nat) <= x as nat);
            // x * 2^32 >= 2^(j+1) so the quotient stays >= 1.
            assert(pow2((j + 1) as nat) <= pow2((e + 1) as nat)) by {
                if j + 1 < e + 1 {
                    lemma_pow2_strictly_increases((j + 1) as nat, (e + 1) as nat);
                }
            };
            assert(pow2((e + 1) as nat) == pow2(e as nat) * 2) by {
                lemma_pow2_adds(e as nat, 1);
            };
            assert(x as nat * 0x1_0000_0000 >= pow2(e as nat) * 2) by {
                lemma_mul_inequality(pow2(e as nat) as int, x as int, 2);
                assert(x as nat * 2 <= x as nat * 0x1_0000_0000) by {
                    lemma_mul_inequality(2, 0x1_0000_0000, x as int);
                };
            };
            assert((x as nat * 0x1_0000_0000) / pow2((j + 1) as nat) >= 1) by {
                lemma_pow2_pos((j + 1) as nat);
                lemma_div_is_ordered(pow2((j + 1) as nat) as int,
                    (x as nat * 0x1_0000_0000) as int, pow2((j + 1) as nat) as int);
                vstd::arithmetic::div_mod::lemma_div_by_self(pow2((j + 1) as nat) as int);
            };
        }
        m = m / 2;
        j = j + 1;
    }
    proof {
        lemma_floor_log2_bound(x as nat);
        let e_n = e as nat;
        // 2^e <= x < 2^(e+1) gives m in [2^32, 2^33).
        assert(m >= 0x1_0000_0000) by {
            lemma_pow2_pos(e_n);
            assert(pow2(e_n) * 0x1_0000_0000 <= x as nat * 0x1_0000_0000) by {
                lemma_mul_inequality(pow2(e_n) as int, x as int, 0x1_0000_0000);
            };
            lemma_div_is_ordered((pow2(e_n) * 0x1_0000_0000) as int,
                (x as nat * 0x1_0000_0000) as int, pow2(e_n) as int);
            lemma_div_multiples_vanish(0x1_0000_0000, pow2(e_n) as int);
        };
        assert(m < 0x2_0000_0000) by {
            lemma_pow2_pos(e_n);
            assert(x as nat + 1 <= pow2(e_n + 1));
            assert(x as nat * 0x1_0000_0000 < pow2(e_n + 1) * 0x1_0000_0000) by {
                lemma_mul_inequality((x + 1) as int, pow2(e_n + 1) as int, 0x1_0000_0000);
            };
            assert(pow2(e_n + 1) == pow2(e_n) * 2) by {
                lemma_pow2_adds(e_n, 1);
                lemma2_to64();
            };
            assert(pow2(e_n + 1) * 0x1_0000_0000 == pow2(e_n) * 0x2_0000_0000) by {
                assert((pow2(e_n) * 2) * 0x1_0000_0000 == pow2(e_n) * 0x2_0000_0000)
                    by (nonlinear_arith);
            };
            lemma_multiply_divide_lt((x as nat * 0x1_0000_0000) as int, pow2(e_n) as int,
                0x2_0000_0000);
        };
    }

    let ghost m0 = m as nat;
    proof {
        lemma2_to64();
    }
    let mut frac: u64 = 0;
    let mut i: u64 = 0;
    while i < 16
        invariant
            i <= 16,
            0x1_0000_0000 <= m < 0x2_0000_0000,
            frac < pow2(i as nat),
            frac_bits(m0, 16) == frac * pow2((16 - i) as nat) + frac_bits(m as nat, (16 - i) as nat),
        decreases 16 - i,
    {
        proof {
            assert(m * m < 0x4_0000_0000_0000_0000) by (nonlinear_arith)
                requires m < 0x2_0000_0000;
            assert(m * m >= 0x1_0000_0000_0000_0000) by (nonlinear_arith)
                requires m >= 0x1_0000_0000;
            assert((m * m) / 0x1_0000_0000 >= 0x1_0000_0000) by {
                lemma_div_is_ordered(0x1_0000_0000_0000_0000, (m * m) as int, 0x1_0000_0000);
            };
            assert((m * m) / 0x1_0000_0000 < 0x4_0000_0000) by {
                lemma_multiply_divide_lt((m * m) as int, 0x1_0000_0000, 0x4_0000_0000);
            };
        }
        let m2: u128 = (m * m) / 0x1_0000_0000;
        let ghost rem = (16 - i) as nat;
        proof {
            // Unfold frac_bits(m, rem) one step.
            assert(rem >= 1);
            lemma_pow2_adds((rem - 1) as nat, 1);
            lemma2_to64();
            assert(frac_bits((m2 / 2) as nat, (rem - 1) as nat) < pow2((rem - 1) as nat)) by {
                lemma_frac_bits_bound((m2 / 2) as nat, (rem - 1) as nat);
            };
            assert(frac_bits(m2 as nat, (rem - 1) as nat) < pow2((rem - 1) as nat)) by {
                lemma_frac_bits_bound(m2 as nat, (rem - 1) as nat);
            };
        }
        if m2 >= 0x2_0000_0000 {
            proof {
                assert(frac * pow2(rem) + pow2((rem - 1) as nat)
                    == (2 * frac + 1) * pow2((rem - 1) as nat)) by (nonlinear_arith)
                    requires pow2(rem) == pow2((rem - 1) as nat) * 2;
            }
            frac = 2 * frac + 1;
            m = m2 / 2;
        } else {
            proof {
                assert(frac * pow2(rem) == (2 * frac) * pow2((rem - 1) as nat)) by (nonlinear_arith)
                    requires pow2(rem) == pow2((rem - 1) as nat) * 2;
            }
            frac = 2 * frac;
            m = m2;
        }
        i = i + 1;
        proof {
            assert(frac < pow2(i as nat)) by {
                lemma_pow2_adds((i - 1) as nat, 1);
                lemma2_to64();
            };
        }
    }
    proof {
        assert(frac_bits(m as nat, 0) == 0);
        assert(frac_bits(m0, 16) == frac * pow2(0) + 0);
        lemma2_to64();
        lemma_floor_log2_max64(x);
    }
    e * 65536 + frac
}

proof fn lemma_frac_bits_bound(m: nat, i: nat)
    ensures
        frac_bits(m, i) < pow2(i),
    decreases i,
{
    if i == 0 {
        lemma2_to64();
    } else {
        let m2 = (m * m) / 0x1_0000_0000;
        lemma_frac_bits_bound(m2 / 2, (i - 1) as nat);
        lemma_frac_bits_bound(m2, (i - 1) as nat);
        lemma_pow2_adds((i - 1) as nat, 1);
        lemma2_to64();
    }
}

/// Sum of a sequence of counts.
pub open spec fn sum_nat(s: Seq<nat>) -> nat
    decreases s.len(),
{
    if s.len() == 0 {
        0
    } else {
        sum_nat(s.drop_last()) + s.last()
    }
}

/// `sum c_i * log2_fp(c_i)` over a sequence of counts.
pub open spec fn weighted_lg_sum(s: Seq<nat>) -> nat
    decreases s.len(),
{
    if s.len() == 0 {
        0
    } else {
        weighted_lg_sum(s.drop_last()) + s.last() * log2_fp(s.last())
    }
}

/// Fixed-point Shannon entropy of the distribution with the given occurrence
/// counts: `log2 n - (sum c_i * log2 c_i) / n` where `n` is the total count,
/// clamped at zero.  Zero counts contribute nothing, an empty distribution has
/// entropy zero.
pub open spec fn entropy_fp(s: Seq<nat>) -> nat {
    let n = sum_nat(s);
    if n == 0 {
        0
    } else {
        let avg = weighted_lg_sum(s) / n;
        let l = log2_fp(n);
        if avg >= l {
            0
        } else {
            (l - avg) as nat
        }
    }
}

/// The view of a vector of counts as a sequence of mathematical naturals.
pub open spec fn counts_view(s: Seq<u64>) -> Seq<nat> {
    s.map_values(|c: u64| c as nat)
}

proof fn lemma_sum_prefix(s: Seq<nat>, i: int)
    requires
        0 <= i < s.len(),
    ensures
        sum_nat(s.subrange(0, i + 1)) == sum_nat(s.subrange(0, i)) + s[i],
        weighted_lg_sum(s.subrange(0, i + 1))
            == weighted_lg_sum(s.subrange(0, i)) + s[i] * log2_fp(s[i]),
{
    let a = s.subrange(0, i + 1);
    assert(a.drop_last() =~= s.subrange(0, i));
    assert(a.last() == s[i]);
}

proof fn lemma_sum_le(s: Seq<nat>, i: int)
    requires
        0 <= i <= s.len(),
    ensures
        sum_nat(s.subrange(0, i)) <= sum_nat(s),
    decreases s.len() - i,
{
    if i == s.len() {
        assert(s.subrange(0, i) =~= s);
    } else {
        lemma_sum_prefix(s, i);
        lemma_sum_le(s, i + 1);
    }
}

/// Fixed-point Shannon entropy of a distribution given by occurrence counts,
/// exactly as [`entropy_fp`] specifies.
pub fn entropy_of_counts(counts: &Vec<u64>) -> (r: u64)
    requires
        sum_nat(counts_view(counts@)) <= u64::MAX,
    ensures
        r == entropy_fp(counts_view(counts@)),
{
    let ghost cv = counts_view(counts@);
    let mut n: u64 = 0;
    let mut i: usize = 0;
    while i < counts.len()
        invariant
            i <= counts.len(),
            cv == counts_view(counts@),
            cv.len() == counts.len(),
            sum_nat(cv) <= u64::MAX,
            n == sum_nat(cv.subrange(0, i as int)),
        decreases counts.len() - i,
    {
        proof {
            lemma_sum_prefix(cv, i as int);
            lemma_sum_le(cv, i as int + 1);
        }
        n = n + counts[i];
        i = i + 1;
    }
    proof {
        assert(cv.subrange(0, cv.len() as int) =~= cv);
    }
    if n == 0 {
        return 0;
    }

    let mut wsum: u128 = 0;
    let mut i: usize = 0;
    while i < counts.len()
        invariant
            i <= counts.len(),
            cv == counts_view(counts@),
            cv.len() == counts.len(),
            sum_nat(cv) <= u64::MAX,
            n == sum_nat(cv),
            n > 0,
            wsum == weighted_lg_sum(cv.subrange(0, i as int)),
            wsum <= sum_nat(cv.subrange(0, i as int)) * 0x400000,
        decreases counts.len() - i,
    {
        proof {
            lemma_sum_prefix(cv, i as int);
            lemma_sum_le(cv, i as int + 1);
        }
        let c = counts[i];
        if c > 0 {
            let lg = log2_fixed(c);
            proof {
                assert(c as nat * log2_fp(c as nat) <= c as nat * 0x400000) by {
                    lemma_mul_inequality(log2_fp(c as nat) as int, 0x400000, c as int);
                };
                assert((sum_nat(cv.subrange(0, i as int)) + c) * 0x400000
                    == sum_nat(cv.subrange(0, i as int)) * 0x400000 + c * 0x400000)
                    by (nonlinear_arith);
                assert(sum_nat(cv.subrange(0, i as int + 1)) * 0x400000 <= u64::MAX * 0x400000) by {
                    lemma_sum_le(cv, i as int + 1);
                    lemma_mul_inequality(sum_nat(cv.subrange(0, i as int + 1)) as int,
                        u64::MAX as int, 0x400000);
                };
            }
            wsum = wsum + (c as u128) * (lg as u128);
        } else {
            proof {
                assert(log2_fp(0) == 0);
            }
        }
        i = i + 1;
    }
    proof {
        assert(cv.subrange(0, cv.len() as int) =~= cv);
        assert(wsum <= n * 0x400000);
        assert((wsum / (n as u128)) <= 0x400000) by {
            lemma_div_is_ordered(wsum as int, (n as nat * 0x400000) as int, n as int);
            lemma_div_multiples_vanish(0x400000, n as int);
        };
    }
    let avg: u64 = (wsum / (n as u128)) as u64;
    let l = log2_fixed(n);
    if avg >= l {
        0
    } else {
        l - avg
    }
}

/// The number of occurrences of `c` in `s`.
pub open spec fn ccount(s: Seq<char>, c: char) -> nat
    decreases s.len(),
{
    if s.len() == 0 {
        0
    } else {
        ccount(s.drop_last(), c) + if s.last() == c {
            1nat
        } else {
            0nat
        }
    }
}

/// The distinct characters of `s` in order of first occurrence.
pub open spec fn firsts(s: Seq<char>) -> Seq<char>
    decreases s.len(),
{
    if s.len() == 0 {
        Seq::empty()
    } else {
        let f = firsts(s.drop_last());
        if f.contains(s.last()) {
            f
        } else {
            f.push(s.last())
        }
    }
}

/// The character frequency table of `s`, keyed by [`firsts`].
pub open spec fn char_counts(s: Seq<char>) -> Seq<nat> {
    firsts(s).map_values(|c: char| ccount(s, c))
}

/// Fixed-point Shannon entropy of the character distribution of `s`.
pub open spec fn char_entropy(s: Seq<char>) -> nat {
    entropy_fp(char_counts(s))
}

proof fn lemma_firsts_contains(s: Seq<char>, c: char)
    ensures
        firsts(s).contains(c) <==> s.contains(c),
    decreases s.len(),
{
    if s.len() > 0 {
        lemma_firsts_contains(s.drop_last(), c);
        assert(s.contains(c) <==> (s.drop_last().contains(c) || s.last() == c)) by {
            if s.contains(c) {
                let k = choose|k: int| 0 <= k < s.len() && s[k] == c;
                if k < s.len() - 1 {
                    assert(s.drop_last()[k] == c);
                } else {
                    assert(s.last() == c);
                }
            }
            if s.drop_last().contains(c) {
                let k = choose|k: int| 0 <= k < s.drop_last().len() && s.drop_last()[k] == c;
                assert(s[k] == c);
            }
            assert(s[s.len() - 1] == s.last());
        };
        let f = firsts(s.drop_last());
        if !f.contains(s.last()) {
            assert(firsts(s) == f.push(s.last()));
            assert(f.push(s.last()).contains(c) <==> (f.contains(c) || s.last() == c)) by {
                if f.contains(c) {
                    let k = choose|k: int| 0 <= k < f.len() && f[k] == c;
                    assert(f.push(s.last())[k] == c);
                }
                if s.last() == c {
                    assert(f.push(s.last())[f.len() as int] == c);
                }
                if f.push(s.last()).contains(c) {
                    let k = choose|k: int| 0 <= k < f.len() + 1 && f.push(s.last())[k] == c;
                    if k < f.len() {
                        assert(f[k] == c);
                    }
                }
            };
        }
    }
}

proof fn lemma_firsts_nodup(s: Seq<char>)
    ensures
        forall|a: int, b: int|
            0 <= a < b < firsts(s).len() ==> firsts(s)[a] != firsts(s)[b],
    decreases s.len(),
{
    if s.len() > 0 {
        lemma_firsts_nodup(s.drop_last());
        let f = firsts(s.drop_last());
        if !f.contains(s.last()) {
            assert forall|a: int, b: int|
                0 <= a < b < firsts(s).len() implies firsts(s)[a] != firsts(s)[b] by {
                if b < f.len() {
                } else {
                    assert(firsts(s)[b] == s.last());
                    assert(firsts(s)[a] == f[a]);
                    assert(f.contains(f[a]));
                }
            };
        }
    }
}

proof fn lemma_ccount_le(s: Seq<char>, c: char)
    ensures
        ccount(s, c) <= s.len(),
    decreases s.len(),
{
    if s.len() > 0 {
        lemma_ccount_le(s.drop_last(), c);
    }
}

pub(crate) proof fn lemma_count_sum_update(s: Seq<nat>, j: int)
    requires
        0 <= j < s.len(),
    ensures
        sum_nat(s.update(j, (s[j] + 1) as nat)) == sum_nat(s) + 1,
    decreases s.len(),
{
    let t = s.update(j, (s[j] + 1) as nat);
    if j == s.len() - 1 {
        assert(t.drop_last() =~= s.drop_last());
    } else {
        assert(t.drop_last() =~= s.drop_last().update(j, (s[j] + 1) as nat));
        lemma_count_sum_update(s.drop_last(), j);
    }
}

/// The index of the first occurrence of `c` in `keys`, if any.
fn find_char(keys: &Vec<char>, c: char) -> (r: Option<usize>)
    ensures
        match r {
            Some(j) => j < keys@.len() && keys@[j as int] == c,
            None => !keys@.contains(c),
        },
{
    let mut j: usize = 0;
    let mut res: Option<usize> = None;
    while j < keys.len()
        invariant
            j <= keys.len(),
            match res {
                Some(jj) => jj < keys@.len() && keys@[jj as int] == c,
                None => forall|k: int| 0 <= k < j ==> keys@[k] != c,
            },
        decreases keys.len() - j,
    {
        if res.is_none() && keys[j] == c {
            res = Some(j);
        }
        j = j + 1;
    }
    res
}

/// Fixed-point Shannon entropy of the character distribution of a string,
/// exactly as [`char_entropy`] specifies.
pub fn entropy_of(s: &str) -> (r: u64)
    ensures
        r == char_entropy(s@),
{
    let n = s.unicode_len();
    let mut keys: Vec<char> = Vec::new();
    let mut cnts: Vec<u64> = Vec::new();
    let mut i: usize = 0;
    while i < n
        invariant
            i <= n,
            n == s@.len(),
            keys@ == firsts(s@.subrange(0, i as int)),
            cnts@.len() == keys@.len(),
            forall|k: int|
                0 <= k < keys@.len() ==> cnts@[k] == ccount(s@.subrange(0, i as int), keys@[k]),
            sum_nat(counts_view(cnts@)) == i,
        decreases n - i,
    {
        let ghost pre = s@.subrange(0, i as int);
        let ghost post = s@.subrange(0, i as int + 1);
        let c = s.get_char(i);
        proof {
            assert(post.drop_last() =~= pre);
            assert(post.last() == c);
            lemma_firsts_contains(pre, c);
        }
        let idx = find_char(&keys, c);
        if let Some(j) = idx {
            let ghost prev = cnts@;
            proof {
                assert(keys@.contains(c));
                assert(pre.contains(c));
                assert(firsts(post) == firsts(pre));
                lemma_firsts_nodup(pre);
                lemma_ccount_le(pre, keys@[j as int]);
                assert(cnts@[j as int] < u64::MAX) by {
                    assert(ccount(pre, keys@[j as int]) <= pre.len());
                };
                lemma_count_sum_update(counts_view(cnts@), j as int);
            }
            let old_c = cnts[j];
            cnts.set(j, old_c + 1);
            proof {
                assert(counts_view(cnts@) =~= counts_view(prev).update(j as int,
                    (prev[j as int] + 1) as nat)) by {
                    assert(cnts@ =~= prev.update(j as int, (prev[j as int] + 1) as u64));
                };
                assert forall|k: int| 0 <= k < keys@.len() implies cnts@[k] == ccount(post,
                    keys@[k]) by {
                    if k == j {
                        assert(ccount(post, c) == ccount(pre, c) + 1);
                    } else {
                        assert(keys@[k] != c);
                        assert(ccount(post, keys@[k]) == ccount(pre, keys@[k]));
                    }
                };
            }
        } else {
            proof {
                assert(!keys@.contains(c));
                assert(!pre.contains(c));
                assert(firsts(post) == firsts(pre).push(c));
                assert(ccount(post, c) == ccount(pre, c) + 1);
                assert(ccount(pre, c) == 0) by {
                    lemma_ccount_zero(pre, c);
                };
            }
            let ghost prev = cnts@;
            keys.push(c);
            cnts.push(1);
            proof {
                assert(counts_view(cnts@) =~= counts_view(prev).push(1nat));
                assert(sum_nat(counts_view(prev).push(1nat))
                    == sum_nat(counts_view(prev)) + 1) by {
                    assert(counts_view(prev).push(1nat).drop_last()
                        =~= counts_view(prev));
                };
                assert forall|k: int| 0 <= k < keys@.len() implies cnts@[k] == ccount(post,
                    keys@[k]) by {
                    if k < keys@.len() - 1 {
                        assert(keys@[k] != c);
                        assert(ccount(post, keys@[k]) == ccount(pre, keys@[k]));
                    }
                };
            }
        }
        i = i + 1;
    }
    proof {
        assert(s@.subrange(0, n as int) =~= s@);
        assert(counts_view(cnts@) =~= char_counts(s@)) by {
            assert(keys@ == firsts(s@));
            assert(counts_view(cnts@).len() == char_counts(s@).len());
            assert forall|k: int| 0 <= k < counts_view(cnts@).len() implies counts_view(cnts@)[k]
                == char_counts(s@)[k] by {
                assert(cnts@[k] == ccount(s@, keys@[k]));
            };
        };
        assert(sum_nat(counts_view(cnts@)) <= u64::MAX);
    }
    entropy_of_counts(&cnts)
}

proof fn lemma_ccount_zero(s: Seq<char>, c: char)
    requires
        !s.contains(c),
    ensures
        ccount(s, c) == 0,
    decreases s.len(),
{
    if s.len() > 0 {
        assert(!s.drop_last().contains(c)) by {
            if s.drop_last().contains(c) {
                let k = choose|k: int| 0 <= k < s.len() - 1 && s.drop_last()[k] == c;
                assert(s[k] == c);
            }
        };
        lemma_ccount_zero(s.drop_last(), c);
        assert(s.last() != c) by {
            assert(s[s.len() - 1] == s.last());
        };
    }
}

} // verus!
