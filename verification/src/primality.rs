use vstd::prelude::*;
use vstd::arithmetic::div_mod::{lemma_fundamental_div_mod, lemma_fundamental_div_mod_converse};

verus! {

/// `n` is prime: at least 2, and no integer in `[2, n)` divides it.
pub open spec fn is_prime(n: int) -> bool {
    n >= 2 && forall|d: int| 2 <= d < n ==> #[trigger] (n % d) != 0
}

/// `s` is exactly the strictly increasing sequence of all primes below `c`.
pub open spec fn emitted_ok(s: Seq<u64>, c: int) -> bool {
    &&& (forall|i: int| #![trigger s[i]] 0 <= i < s.len() ==> is_prime(s[i] as int) && (s[i] as int) < c)
    &&& (forall|i: int, j: int| 0 <= i < j < s.len() ==> s[i] < s[j])
    &&& (forall|p: int|
        2 <= p < c && is_prime(p) ==> exists|i: int| #![trigger s[i]]
            0 <= i < s.len() && s[i] as int == p)
}

/// How many primes lie strictly below `v`.
pub open spec fn count_primes_below(v: int) -> nat
    decreases v,
{
    if v <= 2 {
        0
    } else {
        count_primes_below(v - 1) + (if is_prime(v - 1) {
            1nat
        } else {
            0nat
        })
    }
}

/// `p` is the prime of index `n` (counting from 0): it is prime and
/// exactly `n` primes lie below it.
pub open spec fn is_nth_prime(n: int, p: int) -> bool {
    is_prime(p) && count_primes_below(p) == n
}

/// Divisibility carries over: if e divides p and p divides c, then e divides c.
proof fn lemma_divides_transitive(e: int, p: int, c: int)
    requires
        2 <= e,
        2 <= p,
        2 <= c,
        p % e == 0,
        c % p == 0,
    ensures
        c % e == 0,
{
    lemma_fundamental_div_mod(p, e);
    lemma_fundamental_div_mod(c, p);
    let a = p / e;
    let b = c / p;
    assert(c == e * (a * b)) by (nonlinear_arith)
        requires
            p == e * a,
            c == p * b,
    ;
    lemma_fundamental_div_mod_converse(c, e, a * b, 0);
}

/// The smallest divisor of `c` that is at least `d`, found by searching upward.
/// Since `c` divides itself, the search always ends at or before `c`.
proof fn lemma_least_divisor_from(c: int, d: int) -> (p: int)
    requires
        2 <= d <= c,
        forall|e: int| 2 <= e < d ==> #[trigger] (c % e) != 0,
    ensures
        d <= p <= c,
        c % p == 0,
        forall|e: int| 2 <= e < p ==> #[trigger] (c % e) != 0,
    decreases c - d,
{
    lemma_fundamental_div_mod_converse(c, c, 1, 0);
    if c % d == 0 {
        d
    } else {
        assert(d < c);
        lemma_least_divisor_from(c, d + 1)
    }
}

/// Every composite number has a prime factor whose square does not exceed it.
pub proof fn lemma_least_prime_factor(c: int) -> (p: int)
    requires
        c >= 2,
        !is_prime(c),
    ensures
        2 <= p < c,
        is_prime(p),
        c % p == 0,
        p * p <= c,
{
    let p = lemma_least_divisor_from(c, 2);
    let d0 = choose|d: int| 2 <= d < c && #[trigger] (c % d) == 0;
    assert(2 <= d0 < c && c % d0 == 0);
    assert(p <= d0);
    assert(p < c);
    // p is prime: a proper divisor of p would also divide c, below p.
    assert forall|e: int| 2 <= e < p implies #[trigger] (p % e) != 0 by {
        if p % e == 0 {
            lemma_divides_transitive(e, p, c);
        }
    }
    // The cofactor c / p is itself a divisor of c, so it is at least p.
    lemma_fundamental_div_mod(c, p);
    let k = c / p;
    assert(c == p * k);
    assert(k >= 2) by (nonlinear_arith)
        requires
            c == p * k,
            2 <= p < c,
    ;
    lemma_fundamental_div_mod_converse(c, k, p, 0);
    assert(c % k == 0);
    assert(k >= p);
    assert(p * p <= c) by (nonlinear_arith)
        requires
            c == p * k,
            p <= k,
            p >= 2,
    ;
    p
}

/// An even number above 2 is composite.
pub proof fn lemma_even_not_prime(n: int)
    requires
        n > 2,
        n % 2 == 0,
    ensures
        !is_prime(n),
{
    assert(2 <= 2 < n && n % 2 == 0);
}

/// Counting primes is monotone in the bound.
proof fn lemma_count_monotone(a: int, b: int)
    requires
        a <= b,
    ensures
        count_primes_below(a) <= count_primes_below(b),
    decreases b - a,
{
    if a < b {
        lemma_count_monotone(a, b - 1);
    }
}

/// Crossing a prime raises the count by exactly one.
proof fn lemma_count_succ_prime(p: int)
    requires
        is_prime(p),
    ensures
        count_primes_below(p + 1) == count_primes_below(p) + 1,
{
}

/// The count does not change over a stretch that holds no prime.
proof fn lemma_count_constant(a: int, b: int)
    requires
        2 <= a <= b,
        forall|m: int| a <= m < b ==> !is_prime(m),
    ensures
        count_primes_below(b) == count_primes_below(a),
    decreases b - a,
{
    if a < b {
        lemma_count_constant(a, b - 1);
    }
}

/// There are no primes below the smallest prime, so counting from 2 gives 0.
proof fn lemma_count_zero(b: int)
    requires
        2 <= b,
        forall|m: int| 2 <= m < b ==> !is_prime(m),
    ensures
        count_primes_below(b) == 0,
{
    lemma_count_constant(2, b);
}

/// Two numbers with the same prime index are the same prime.
proof fn lemma_nth_prime_unique(n: int, p: int, q: int)
    requires
        is_nth_prime(n, p),
        is_nth_prime(n, q),
    ensures
        p == q,
{
    if p < q {
        lemma_count_succ_prime(p);
        lemma_count_monotone(p + 1, q);
        assert(false);
    }
    if q < p {
        lemma_count_succ_prime(q);
        lemma_count_monotone(q + 1, p);
        assert(false);
    }
}

/// Every output of the generator is the prime of its index: the value at
/// position `n` of a produced sequence is the `n`-th prime (counting from 0).
pub proof fn lemma_nth_output_is_nth_prime(s: Seq<u64>, c: int, n: int)
    requires
        emitted_ok(s, c),
        0 <= n < s.len(),
    ensures
        is_nth_prime(n, s[n] as int),
    decreases n,
{
    let v = s[n] as int;
    assert(is_prime(v));
    if n == 0 {
        assert forall|m: int| 2 <= m < v implies !is_prime(m) by {
            if is_prime(m) {
                assert(m < c);
                let i = choose|i: int| #![trigger s[i]] 0 <= i < s.len() && s[i] as int == m;
                assert(s[0] <= s[i]);
            }
        }
        lemma_count_zero(v);
    } else {
        lemma_nth_output_is_nth_prime(s, c, n - 1);
        let u = s[n - 1] as int;
        assert(u < v);
        lemma_count_succ_prime(u);
        assert forall|m: int| u + 1 <= m < v implies !is_prime(m) by {
            if is_prime(m) {
                assert(m < c);
                let i = choose|i: int| #![trigger s[i]] 0 <= i < s.len() && s[i] as int == m;
                if i <= n - 1 {
                    assert(s[i] <= s[n - 1]);
                } else {
                    assert(s[n] <= s[i]);
                }
            }
        }
        lemma_count_constant(u + 1, v);
    }
}

/// Appending a newly found prime to the produced sequence keeps it equal
/// to the increasing sequence of all primes below the advanced frontier.
pub proof fn lemma_emitted_push(s: Seq<u64>, c: u64)
    requires
        emitted_ok(s, c as int),
        is_prime(c as int),
    ensures
        emitted_ok(s.push(c), c as int + 1),
{
    let cc = c as int;
    let s2 = s.push(c);
    assert forall|i: int| #![trigger s2[i]] 0 <= i < s2.len() implies is_prime(s2[i] as int) && (
    s2[i] as int) < cc + 1 by {
        if i < s.len() {
            assert(s2[i] == s[i]);
        } else {
            assert(s2[i] == c);
        }
    }
    assert forall|i: int, j: int| 0 <= i < j < s2.len() implies s2[i] < s2[j] by {
        assert(s2[i] == s[i]);
        if j < s2.len() - 1 {
            assert(s2[j] == s[j]);
        } else {
            assert((s[i] as int) < cc);
        }
    }
    assert forall|p: int| 2 <= p < cc + 1 && is_prime(p) implies exists|i: int|
        #![trigger s2[i]]
        0 <= i < s2.len() && s2[i] as int == p by {
        if p < cc {
            let i = choose|i: int| #![trigger s[i]] 0 <= i < s.len() && s[i] as int == p;
            assert(s2[i] as int == p);
        } else {
            assert(s2[s2.len() - 1] as int == p);
        }
    }
}

/// Passing a composite keeps the produced sequence complete for the
/// advanced frontier.
pub proof fn lemma_emitted_skip(s: Seq<u64>, c: int)
    requires
        emitted_ok(s, c),
        !is_prime(c),
    ensures
        emitted_ok(s, c + 1),
{
    assert forall|p: int| 2 <= p < c + 1 && is_prime(p) implies exists|i: int|
        #![trigger s[i]]
        0 <= i < s.len() && s[i] as int == p by {
        assert(p != c);
    }
}

/// The produced sequence is strictly increasing: no value repeats.
pub proof fn lemma_outputs_strictly_increasing(s: Seq<u64>, c: int)
    requires
        emitted_ok(s, c),
    ensures
        forall|i: int, j: int| 0 <= i < j < s.len() ==> s[i] < s[j],
{
}

/// Every produced value is prime: no integer in `[2, value)` divides it.
pub proof fn lemma_outputs_all_prime(s: Seq<u64>, c: int)
    requires
        emitted_ok(s, c),
    ensures
        forall|i: int| #![trigger s[i]] 0 <= i < s.len() ==> is_prime(s[i] as int),
        forall|i: int, d: int|
            0 <= i < s.len() && 2 <= d < (s[i] as int) ==> #[trigger] ((s[i] as int) % d) != 0,
{
    assert forall|i: int, d: int|
        0 <= i < s.len() && 2 <= d < (s[i] as int) implies #[trigger] ((s[i] as int) % d) != 0 by {
        assert(is_prime(s[i] as int));
    }
}

/// No prime is skipped: every prime below the last produced value appears
/// in the produced sequence exactly once.
pub proof fn lemma_no_prime_skipped(s: Seq<u64>, c: int, p: int)
    requires
        emitted_ok(s, c),
        is_prime(p),
        s.len() > 0,
        p < (s.last() as int),
    ensures
        exists|i: int| #![trigger s[i]] 0 <= i < s.len() && s[i] as int == p,
        forall|i: int, j: int|
            0 <= i < s.len() && 0 <= j < s.len() && s[i] as int == p && s[j] as int == p ==> i == j,
{
    assert((s.last() as int) < c);
}

/// Any two produced sequences of the same length are identical, whatever
/// tracking strategy produced them.
pub proof fn lemma_sequences_agree(s1: Seq<u64>, c1: int, s2: Seq<u64>, c2: int)
    requires
        emitted_ok(s1, c1),
        emitted_ok(s2, c2),
        s1.len() == s2.len(),
    ensures
        s1 == s2,
{
    assert forall|n: int| 0 <= n < s1.len() implies s1[n] == s2[n] by {
        lemma_nth_output_is_nth_prime(s1, c1, n);
        lemma_nth_output_is_nth_prime(s2, c2, n);
        lemma_nth_prime_unique(n, s1[n] as int, s2[n] as int);
    }
    assert(s1 =~= s2);
}

} // verus!
