use vstd::prelude::*;
use vstd::arithmetic::div_mod::{lemma_fundamental_div_mod, lemma_fundamental_div_mod_converse};

use crate::primality::{
    emitted_ok, is_prime, lemma_emitted_push, lemma_emitted_skip, lemma_even_not_prime,
    lemma_least_prime_factor,
};
use crate::CANDIDATE_LIMIT;

verus! {

/// The pair `(v, s)` books the odd prime `p` for its next strike, seen from
/// candidate `c`: `v` is the smallest odd multiple of `p` at least `c` and
/// at least `p * p`, and `s` is the stride to the next odd multiple.
spec fn pair_ok(p: int, v: int, s: int, c: int) -> bool {
    &&& is_prime(p)
    &&& 3 <= p < c
    &&& s == 2 * p
    &&& v % p == 0
    &&& v % 2 == 1
    &&& v >= c
    &&& p * p <= v
    &&& (v == p * p || v - s < c)
}

/// Some odd prime below `c` owns the pair `(v, s)`.
spec fn elem_ok(v: int, s: int, c: int) -> bool {
    exists|p: int| #[trigger] pair_ok(p, v, s, c)
}

/// Steady shape for candidate `c`: the held pair `nc` and every queued pair
/// are proper bookings, `nc` carries the smallest booked value, and every
/// odd prime below `c` is booked exactly where it should be.
spec fn queue_shape(q: Seq<(u64, u64)>, nc: (u64, u64), c: int) -> bool {
    &&& elem_ok(nc.0 as int, nc.1 as int, c)
    &&& (forall|i: int|
        #![trigger q[i]]
        0 <= i < q.len() ==> elem_ok(q[i].0 as int, q[i].1 as int, c))
    &&& (forall|i: int| #![trigger q[i]] 0 <= i < q.len() ==> nc.0 <= q[i].0)
    &&& (forall|p: int|
        is_prime(p) && 3 <= p < c ==> nc.1 as int == 2 * p || exists|i: int|
            #![trigger q[i]]
            0 <= i < q.len() && q[i].1 as int == 2 * p)
}

/// Mid-drain shape at composite candidate `c`: pairs that already struck at
/// `c` are rebooked for `c + 2`, the rest still aim at `c`.
spec fn drain_shape(q: Seq<(u64, u64)>, nc: (u64, u64), c: int) -> bool {
    &&& (elem_ok(nc.0 as int, nc.1 as int, c) || elem_ok(nc.0 as int, nc.1 as int, c + 2))
    &&& (forall|i: int|
        #![trigger q[i]]
        0 <= i < q.len() ==> elem_ok(q[i].0 as int, q[i].1 as int, c) || elem_ok(
            q[i].0 as int,
            q[i].1 as int,
            c + 2,
        ))
    &&& (forall|i: int| #![trigger q[i]] 0 <= i < q.len() ==> nc.0 <= q[i].0)
    &&& (forall|p: int|
        is_prime(p) && 3 <= p < c ==> nc.1 as int == 2 * p || exists|i: int|
            #![trigger q[i]]
            0 <= i < q.len() && q[i].1 as int == 2 * p)
}

/// How many queued pairs aim exactly at `c`.
spec fn count_eq(q: Seq<(u64, u64)>, c: u64) -> nat
    decreases q.len(),
{
    if q.len() == 0 {
        0
    } else {
        count_eq(q.drop_last(), c) + (if q.last().0 == c {
            1nat
        } else {
            0nat
        })
    }
}

proof fn lemma_count_push(q: Seq<(u64, u64)>, e: (u64, u64), c: u64)
    ensures
        count_eq(q.push(e), c) == count_eq(q, c) + (if e.0 == c {
            1nat
        } else {
            0nat
        }),
{
    assert(q.push(e).drop_last() =~= q);
    assert(q.push(e).last() == e);
}

proof fn lemma_count_remove(q: Seq<(u64, u64)>, j: int, c: u64)
    requires
        0 <= j < q.len(),
    ensures
        count_eq(q, c) == count_eq(q.remove(j), c) + (if q[j].0 == c {
            1nat
        } else {
            0nat
        }),
    decreases q.len(),
{
    q.remove_ensures(j);
    if j == q.len() - 1 {
        assert(q.remove(j) =~= q.drop_last());
    } else {
        let qd = q.drop_last();
        lemma_count_remove(qd, j, c);
        qd.remove_ensures(j);
        assert(q.remove(j).drop_last() =~= qd.remove(j));
        assert(q.remove(j).last() == q.last());
    }
}

/// The product of two odd numbers is odd.
proof fn lemma_odd_times_odd(a: int, b: int)
    requires
        a >= 0,
        b >= 0,
        a % 2 == 1,
        b % 2 == 1,
    ensures
        (a * b) % 2 == 1,
{
    lemma_fundamental_div_mod(a, 2);
    lemma_fundamental_div_mod(b, 2);
    let x = a / 2;
    let y = b / 2;
    assert(a * b == 2 * (2 * x * y + x + y) + 1) by (nonlinear_arith)
        requires
            a == 2 * x + 1,
            b == 2 * y + 1,
    ;
    assert(a * b >= 0) by (nonlinear_arith)
        requires
            a >= 0,
            b >= 0,
    ;
    lemma_fundamental_div_mod_converse(a * b, 2, 2 * x * y + x + y, 1);
}

/// The sum of an odd and an even number is odd.
proof fn lemma_odd_plus_even(a: int, b: int)
    requires
        a >= 0,
        b >= 0,
        a % 2 == 1,
        b % 2 == 0,
    ensures
        (a + b) % 2 == 1,
{
    lemma_fundamental_div_mod(a, 2);
    lemma_fundamental_div_mod(b, 2);
    lemma_fundamental_div_mod_converse(a + b, 2, a / 2 + b / 2, 1);
}

/// Two odd multiples of an odd prime differ by at least twice the prime.
proof fn lemma_odd_multiple_gap(p: int, v: int, c: int)
    requires
        is_prime(p),
        p >= 3,
        v % p == 0,
        c % p == 0,
        v % 2 == 1,
        c % 2 == 1,
        v > c >= 2,
    ensures
        v >= c + 2 * p,
{
    assert(p % 2 == 1) by {
        assert(p % 2 != 0);
        lemma_fundamental_div_mod(p, 2);
    }
    lemma_fundamental_div_mod(v, p);
    lemma_fundamental_div_mod(c, p);
    let a = v / p;
    let b = c / p;
    assert(a > b) by (nonlinear_arith)
        requires
            v == p * a,
            c == p * b,
            v > c,
            p >= 3,
    ;
    let d = a - b;
    assert(v - c == p * d) by (nonlinear_arith)
        requires
            v == p * a,
            c == p * b,
            d == a - b,
    ;
    assert((v - c) % 2 == 0) by {
        lemma_fundamental_div_mod(v, 2);
        lemma_fundamental_div_mod(c, 2);
        lemma_fundamental_div_mod_converse(v - c, 2, v / 2 - c / 2, 0);
    }
    if d % 2 == 1 {
        lemma_odd_times_odd(p, d);
        assert(false);
    }
    lemma_fundamental_div_mod(d, 2);
    assert(d >= 2);
    assert(v - c >= 2 * p) by (nonlinear_arith)
        requires
            v - c == p * d,
            d >= 2,
            p >= 3,
    ;
}

/// A booking whose value is past an odd candidate is also a proper booking
/// for the candidate after next.
proof fn lemma_lift_elem(v: int, s: int, c: int)
    requires
        elem_ok(v, s, c) || elem_ok(v, s, c + 2),
        v > c,
        c % 2 == 1,
        c >= 5,
    ensures
        elem_ok(v, s, c + 2),
{
    if elem_ok(v, s, c) {
        let p = choose|p: int| #[trigger] pair_ok(p, v, s, c);
        assert(v % 2 == 1);
        if v == c + 1 {
            lemma_fundamental_div_mod(c, 2);
            lemma_fundamental_div_mod_converse(c + 1, 2, c / 2 + 1, 0);
            assert(false);
        }
        assert(v >= c + 2);
        assert(pair_ok(p, v, s, c + 2));
    }
}

/// An odd candidate strictly below every booked value is prime: a composite
/// odd candidate would be the pending strike of its smallest prime factor.
proof fn lemma_low_candidate_prime(q: Seq<(u64, u64)>, nc: (u64, u64), c: u64)
    requires
        queue_shape(q, nc, c as int),
        c % 2 == 1,
        c >= 5,
        (c as int) < nc.0 as int,
    ensures
        is_prime(c as int),
{
    let cc = c as int;
    if !is_prime(cc) {
        let p = lemma_least_prime_factor(cc);
        assert(p != 2) by {
            if p == 2 {
                lemma_fundamental_div_mod(cc, 2);
            }
        }
        assert(p % 2 == 1) by {
            assert(p % 2 != 0);
            lemma_fundamental_div_mod(p, 2);
        }
        assert(p >= 3);
        let (v, s) = if nc.1 as int == 2 * p {
            (nc.0 as int, nc.1 as int)
        } else {
            let i = choose|i: int| #![trigger q[i]] 0 <= i < q.len() && q[i].1 as int == 2 * p;
            assert(nc.0 <= q[i].0);
            (q[i].0 as int, q[i].1 as int)
        };
        assert(elem_ok(v, s, cc));
        assert(v >= nc.0 as int);
        assert(v > cc);
        let p2 = choose|p2: int| #[trigger] pair_ok(p2, v, s, cc);
        assert(2 * p2 == 2 * p);
        assert(p2 == p);
        if v == p * p {
            assert(false);
        } else {
            assert(v - 2 * p < cc);
            lemma_odd_multiple_gap(p, v, cc);
            assert(false);
        }
    }
}

/// The held pair never aims beyond the square of a fresh prime candidate:
/// the booking of 3 already sits at or below it.
proof fn lemma_nc_below_square(q: Seq<(u64, u64)>, nc: (u64, u64), c: u64)
    requires
        queue_shape(q, nc, c as int),
        c % 2 == 1,
        5 <= c < CANDIDATE_LIMIT,
    ensures
        c as int * (c as int) <= u64::MAX,
        nc.0 as int <= c as int * (c as int),
{
    let cc = c as int;
    assert(cc * cc <= 0xFFFF_FFFE_0000_0001) by (nonlinear_arith)
        requires
            0 <= cc < 0x1_0000_0000,
    ;
    assert(is_prime(3)) by {
        assert(3int % 2 == 1);
    }
    let (v, s) = if nc.1 as int == 6 {
        (nc.0 as int, nc.1 as int)
    } else {
        let i = choose|i: int| #![trigger q[i]] 0 <= i < q.len() && q[i].1 as int == 6;
        assert(nc.0 <= q[i].0);
        (q[i].0 as int, q[i].1 as int)
    };
    assert(elem_ok(v, s, cc));
    let p3 = choose|p3: int| #[trigger] pair_ok(p3, v, s, cc);
    assert(p3 == 3);
    assert(p3 * p3 == 9) by (nonlinear_arith)
        requires
            p3 == 3,
    ;
    assert(v == 9 || v - 6 < cc);
    assert(cc * cc >= 5 * cc) by (nonlinear_arith)
        requires
            cc >= 5,
    ;
    assert(nc.0 as int <= v);
    assert(v <= cc * cc);
}

/// Booking the square of a freshly found prime keeps the steady shape for
/// the candidate after next.
proof fn lemma_emit_queue(q: Seq<(u64, u64)>, nc: (u64, u64), c: u64)
    requires
        queue_shape(q, nc, c as int),
        c % 2 == 1,
        5 <= c < CANDIDATE_LIMIT,
        (c as int) < nc.0 as int,
    ensures
        is_prime(c as int),
        c as int * (c as int) <= u64::MAX,
        2 * (c as int) <= u64::MAX,
        queue_shape(q.push(((c * c) as u64, (c * 2) as u64)), nc, c as int + 2),
{
    let cc = c as int;
    lemma_low_candidate_prime(q, nc, c);
    lemma_nc_below_square(q, nc, c);
    let q2 = q.push(((c * c) as u64, (c * 2) as u64));
    lemma_fundamental_div_mod_converse(cc * cc, cc, cc, 0);
    lemma_odd_times_odd(cc, cc);
    assert(cc * cc >= cc + 2) by (nonlinear_arith)
        requires
            cc >= 5,
    ;
    assert(pair_ok(cc, cc * cc, 2 * cc, cc + 2));
    assert(elem_ok(cc * cc, 2 * cc, cc + 2));
    assert forall|i: int| #![trigger q2[i]] 0 <= i < q2.len() implies elem_ok(
        q2[i].0 as int,
        q2[i].1 as int,
        cc + 2,
    ) && nc.0 <= q2[i].0 by {
        if i < q.len() {
            assert(q2[i] == q[i]);
            assert(q[i].0 >= nc.0);
            assert((q[i].0 as int) > cc);
            lemma_lift_elem(q[i].0 as int, q[i].1 as int, cc);
        } else {
            assert(q2[i].0 as int == cc * cc);
            assert(q2[i].1 as int == 2 * cc);
            assert(nc.0 as int <= cc * cc);
        }
    }
    lemma_lift_elem(nc.0 as int, nc.1 as int, cc);
    assert forall|p: int| is_prime(p) && 3 <= p < cc + 2 implies nc.1 as int == 2 * p || exists|
        i: int,
    |
        #![trigger q2[i]]
        0 <= i < q2.len() && q2[i].1 as int == 2 * p by {
        if p < cc {
            if nc.1 as int != 2 * p {
                let i = choose|i: int| #![trigger q[i]] 0 <= i < q.len() && q[i].1 as int == 2 * p;
                assert(q2[i].1 as int == 2 * p);
            }
        } else if p == cc {
            assert(q2[q.len() as int].1 as int == 2 * p);
        } else {
            assert(p == cc + 1);
            assert((cc + 1) % 2 == 0) by {
                lemma_fundamental_div_mod(cc, 2);
                lemma_fundamental_div_mod_converse(cc + 1, 2, cc / 2 + 1, 0);
            }
            lemma_even_not_prime(cc + 1);
            assert(false);
        }
    }
}

/// A steady queue is trivially in mid-drain shape.
proof fn lemma_steady_to_drain(q: Seq<(u64, u64)>, nc: (u64, u64), c: u64)
    requires
        queue_shape(q, nc, c as int),
    ensures
        drain_shape(q, nc, c as int),
{
}

/// A strike at the candidate shows it composite, and rebooking the struck
/// pair two candidates ahead stays within `u64` range.
proof fn lemma_drain_prep(q: Seq<(u64, u64)>, nc: (u64, u64), c: u64)
    requires
        drain_shape(q, nc, c as int),
        nc.0 == c,
        c % 2 == 1,
        5 <= c < CANDIDATE_LIMIT,
    ensures
        !is_prime(c as int),
        nc.0 as int + nc.1 as int <= u64::MAX,
        elem_ok(nc.0 as int + nc.1 as int, nc.1 as int, c as int + 2),
{
    let cc = c as int;
    let s = nc.1 as int;
    assert(elem_ok(cc, s, cc)) by {
        if elem_ok(nc.0 as int, nc.1 as int, cc + 2) {
            let p0 = choose|p0: int| #[trigger] pair_ok(p0, cc, s, cc + 2);
            assert(false);
        }
    }
    let p = choose|p: int| #[trigger] pair_ok(p, cc, s, cc);
    assert(cc % p == 0);
    assert(!is_prime(cc)) by {
        if is_prime(cc) {
            assert(cc % p != 0);
        }
    }
    lemma_fundamental_div_mod(cc, p);
    assert((cc / p + 2) * p == p * (cc / p) + 2 * p) by (nonlinear_arith);
    lemma_fundamental_div_mod_converse(cc + 2 * p, p, cc / p + 2, 0);
    lemma_odd_plus_even(cc, 2 * p);
    assert(pair_ok(p, cc + s, s, cc + 2));
}

/// Rebooking the struck pair and holding out the new minimum keeps the
/// mid-drain shape; exactly one strike at the candidate is consumed.
proof fn lemma_drain_step(q: Seq<(u64, u64)>, nc: (u64, u64), c: u64, e: (u64, u64), j: int)
    requires
        drain_shape(q, nc, c as int),
        nc.0 == c,
        c % 2 == 1,
        5 <= c,
        e.0 as int == nc.0 as int + nc.1 as int,
        e.1 == nc.1,
        elem_ok(e.0 as int, e.1 as int, c as int + 2),
        0 <= j < q.push(e).len(),
        forall|i: int|
            0 <= i < q.push(e).len() ==> q.push(e)[j].0 <= #[trigger] q.push(e)[i].0,
    ensures
        drain_shape(q.push(e).remove(j), q.push(e)[j], c as int),
        q.push(e)[j].0 >= c,
        count_eq(q.push(e).remove(j), c) + (if q.push(e)[j].0 == c {
            1nat
        } else {
            0nat
        }) == count_eq(q, c),
{
    let cc = c as int;
    let q2 = q.push(e);
    let q3 = q2.remove(j);
    q2.remove_ensures(j);
    assert(e.0 > c) by {
        let p = choose|p: int| #[trigger] pair_ok(p, e.0 as int, e.1 as int, cc + 2);
    }
    lemma_count_push(q, e, c);
    lemma_count_remove(q2, j, c);
    assert forall|i: int| #![trigger q2[i]] 0 <= i < q2.len() implies (elem_ok(
        q2[i].0 as int,
        q2[i].1 as int,
        cc,
    ) || elem_ok(q2[i].0 as int, q2[i].1 as int, cc + 2)) && q2[i].0 >= c by {
        if i < q.len() {
            assert(q2[i] == q[i]);
            assert(nc.0 <= q[i].0);
        } else {
            assert(q2[i] == e);
        }
    }
    assert forall|i: int| #![trigger q3[i]] 0 <= i < q3.len() implies (elem_ok(
        q3[i].0 as int,
        q3[i].1 as int,
        cc,
    ) || elem_ok(q3[i].0 as int, q3[i].1 as int, cc + 2)) && q2[j].0 <= q3[i].0 by {
        if i < j {
            assert(q3[i] == q2[i]);
        } else {
            assert(q3[i] == q2[i + 1]);
        }
    }
    assert forall|p: int| is_prime(p) && 3 <= p < cc implies q2[j].1 as int == 2 * p || exists|
        i: int,
    |
        #![trigger q3[i]]
        0 <= i < q3.len() && q3[i].1 as int == 2 * p by {
        if nc.1 as int == 2 * p {
            if j == q.len() as int {
                assert(q2[j] == e);
            } else {
                assert(q3[q2.len() - 2] == q2[q2.len() - 1]);
                assert(q3[q2.len() - 2].1 as int == 2 * p);
            }
        } else {
            let i = choose|i: int| #![trigger q[i]] 0 <= i < q.len() && q[i].1 as int == 2 * p;
            assert(q2[i] == q[i]);
            if i == j {
            } else if i < j {
                assert(q3[i] == q2[i]);
                assert(q3[i].1 as int == 2 * p);
            } else {
                assert(q3[i - 1] == q2[i]);
                assert(q3[i - 1].1 as int == 2 * p);
            }
        }
    }
}

/// When no pair aims at the candidate any more, advancing by two restores
/// the steady shape.
proof fn lemma_drain_to_steady(q: Seq<(u64, u64)>, nc: (u64, u64), c: u64)
    requires
        drain_shape(q, nc, c as int),
        nc.0 as int > c as int,
        c % 2 == 1,
        5 <= c,
        !is_prime(c as int),
    ensures
        queue_shape(q, nc, c as int + 2),
{
    let cc = c as int;
    lemma_lift_elem(nc.0 as int, nc.1 as int, cc);
    assert forall|i: int| #![trigger q[i]] 0 <= i < q.len() implies elem_ok(
        q[i].0 as int,
        q[i].1 as int,
        cc + 2,
    ) by {
        assert(nc.0 <= q[i].0);
        lemma_lift_elem(q[i].0 as int, q[i].1 as int, cc);
    }
    assert forall|p: int| is_prime(p) && 3 <= p < cc + 2 implies nc.1 as int == 2 * p || exists|
        i: int,
    |
        #![trigger q[i]]
        0 <= i < q.len() && q[i].1 as int == 2 * p by {
        if p == cc {
            assert(false);
        } else if p == cc + 1 {
            assert((cc + 1) % 2 == 0) by {
                lemma_fundamental_div_mod(cc, 2);
                lemma_fundamental_div_mod_converse(cc + 1, 2, cc / 2 + 1, 0);
            }
            lemma_even_not_prime(cc + 1);
            assert(false);
        }
    }
}

/// The position of a smallest booked value in the queue.
fn min_index(v: &Vec<(u64, u64)>) -> (m: usize)
    requires
        v@.len() > 0,
    ensures
        m < v@.len(),
        forall|i: int| 0 <= i < v@.len() ==> v@[m as int].0 <= #[trigger] v@[i].0,
{
    let mut m: usize = 0;
    let mut j: usize = 1;
    while j < v.len()
        invariant
            m < j <= v@.len(),
            forall|i: int| 0 <= i < j ==> v@[m as int].0 <= #[trigger] v@[i].0,
        decreases v@.len() - j,
    {
        if v[j].0 < v[m].0 {
            m = j;
        }
        j += 1;
    }
    m
}

/// A generator of the primes in increasing order. After producing 2 and 3
/// it walks odd candidates only, holding the smallest pending composite
/// outside a min-ordered collection of `(next strike, stride)` pairs, one
/// per discovered odd prime.
pub struct QueuePrimesIter {
    candidate: u64,
    next_composite: (u64, u64),
    pq: Vec<(u64, u64)>,
    produced: Ghost<Seq<u64>>,
    halted: bool,
}

impl QueuePrimesIter {
    /// The primes produced so far, in the order they came out.
    pub closed spec fn emitted(self) -> Seq<u64> {
        self.produced@
    }

    /// The next integer to be classified: every prime below it has been
    /// produced, and nothing else has.
    pub closed spec fn frontier(self) -> int {
        self.candidate as int
    }

    /// Whether the generator has shut down because a tracked value would
    /// no longer fit in a `u64`.
    pub closed spec fn failed(self) -> bool {
        self.halted
    }

    /// The generator is consistent: two fixed bootstrap states for the
    /// primes 2 and 3, then the steady odd-walk shape.
    pub closed spec fn wf(self) -> bool {
        if self.candidate == 2 {
            &&& self.produced@ == Seq::<u64>::empty()
            &&& self.pq@.len() == 0
            &&& self.next_composite == (9u64, 6u64)
        } else if self.candidate == 3 {
            &&& self.produced@ == seq![2u64]
            &&& self.pq@.len() == 0
            &&& self.next_composite == (9u64, 6u64)
        } else {
            &&& self.candidate >= 5
            &&& self.candidate % 2 == 1
            &&& emitted_ok(self.produced@, self.candidate as int)
            &&& queue_shape(self.pq@, self.next_composite, self.candidate as int)
        }
    }

    /// A consistent generator's output is the increasing sequence of all
    /// primes below its frontier.
    pub proof fn lemma_wf_emitted_ok(self)
        requires
            self.wf(),
        ensures
            emitted_ok(self.emitted(), self.frontier()),
    {
        if self.candidate == 2 {
        } else if self.candidate == 3 {
            assert(is_prime(2)) by {
                assert(forall|d: int| 2 <= d < 2 ==> #[trigger] (2int % d) != 0);
            }
            assert forall|p: int| 2 <= p < 3 && is_prime(p) implies exists|i: int|
                #![trigger self.produced@[i]]
                0 <= i < self.produced@.len() && self.produced@[i] as int == p by {
                assert(self.produced@[0] as int == 2);
            }
        }
    }

    /// A fresh generator: nothing produced, first candidate is 2.
    pub fn new() -> (r: Self)
        ensures
            r.wf(),
            !r.failed(),
            r.emitted() == Seq::<u64>::empty(),
            r.frontier() == 2,
    {
        QueuePrimesIter {
            candidate: 2,
            next_composite: (9, 6),
            pq: Vec::new(),
            produced: Ghost(Seq::empty()),
            halted: false,
        }
    }

    /// Produce the next prime, in increasing order.
    ///
    /// Returns `None` only when the tracker would have to book a composite
    /// beyond `u64::MAX`; the generator then stays shut down. Success is
    /// guaranteed while the next prime lies below `CANDIDATE_LIMIT`.
    pub fn next(&mut self) -> (r: Option<u64>)
        requires
            old(self).wf(),
        ensures
            final(self).wf(),
            emitted_ok(final(self).emitted(), final(self).frontier()),
            match r {
                Some(p) => {
                    &&& !old(self).failed()
                    &&& !final(self).failed()
                    &&& final(self).emitted() == old(self).emitted().push(p)
                    &&& is_prime(p as int)
                    &&& old(self).frontier() <= (p as int)
                    &&& (p as int) < final(self).frontier()
                },
                None => {
                    &&& final(self).failed()
                    &&& final(self).emitted() == old(self).emitted()
                },
            },
            old(self).frontier() <= final(self).frontier(),
            final(self).failed() ==> old(self).failed() || final(self).frontier()
                >= CANDIDATE_LIMIT as int,
            (!old(self).failed() && exists|q: int|
                old(self).frontier() <= q < CANDIDATE_LIMIT as int && is_prime(q)) ==> r is Some,
    {
        if self.halted {
            proof {
                self.lemma_wf_emitted_ok();
            }
            return None;
        }
        if self.candidate == 2 {
            self.candidate = 3;
            proof {
                assert(is_prime(2)) by {
                    assert(forall|d: int| 2 <= d < 2 ==> #[trigger] (2int % d) != 0);
                }
                assert(self.produced@.push(2u64) =~= seq![2u64]);
            }
            self.produced = Ghost(self.produced@.push(2));
            proof {
                self.lemma_wf_emitted_ok();
            }
            return Some(2);
        }
        if self.candidate == 3 {
            self.candidate = 5;
            proof {
                assert(is_prime(2));
                assert(is_prime(3)) by {
                    assert(3int % 2 == 1);
                }
                assert(!is_prime(4)) by {
                    assert(4int % 2 == 0);
                }
                let s2 = self.produced@.push(3u64);
                assert(emitted_ok(self.produced@, 3)) by {
                    assert(self.produced@[0] as int == 2);
                }
                lemma_emitted_push(self.produced@, 3);
                lemma_emitted_skip(s2, 4);
                assert(pair_ok(3, 9, 6, 5));
                assert(elem_ok(9, 6, 5));
                assert forall|p: int| is_prime(p) && 3 <= p < 5 implies (6int == 2 * p) || exists|
                    i: int,
                |
                    #![trigger self.pq@[i]]
                    0 <= i < self.pq@.len() && self.pq@[i].1 as int == 2 * p by {
                    if p == 4 {
                        assert(4int % 2 == 0);
                        lemma_even_not_prime(4);
                    }
                }
                assert(queue_shape(self.pq@, (9u64, 6u64), 5));
            }
            self.produced = Ghost(self.produced@.push(3));
            return Some(3);
        }
        loop
            invariant
                self.wf(),
                self.candidate >= 5,
                !self.halted,
                !old(self).halted,
                self.produced@ == old(self).produced@,
                old(self).candidate <= self.candidate,
                forall|q: int|
                    old(self).frontier() <= q < CANDIDATE_LIMIT as int && is_prime(q)
                        ==> self.candidate as int <= q,
            decreases u64::MAX - self.candidate,
        {
            let c = self.candidate;
            let ghost cc = c as int;
            if c >= CANDIDATE_LIMIT {
                self.halted = true;
                proof {
                    self.lemma_wf_emitted_ok();
                }
                return None;
            }
            if c < self.next_composite.0 {
                proof {
                    lemma_emit_queue(self.pq@, self.next_composite, c);
                }
                let sq = c * c;
                let st = c * 2;
                let ghost q0 = self.pq@;
                self.pq.push((sq, st));
                proof {
                    assert(self.pq@ == q0.push((sq, st)));
                    lemma_emitted_push(self.produced@, c);
                    assert((cc + 1) % 2 == 0) by {
                        lemma_fundamental_div_mod(cc, 2);
                        lemma_fundamental_div_mod_converse(cc + 1, 2, cc / 2 + 1, 0);
                    }
                    lemma_even_not_prime(cc + 1);
                    lemma_emitted_skip(self.produced@.push(c), cc + 1);
                    assert((cc + 2) % 2 == 1) by {
                        lemma_fundamental_div_mod(cc, 2);
                        lemma_fundamental_div_mod_converse(cc + 2, 2, cc / 2 + 1, 1);
                    }
                }
                self.produced = Ghost(self.produced@.push(c));
                self.candidate = c + 2;
                proof {
                    self.lemma_wf_emitted_ok();
                }
                return Some(c);
            }
            proof {
                assert(c == self.next_composite.0);
                lemma_steady_to_drain(self.pq@, self.next_composite, c);
                lemma_drain_prep(self.pq@, self.next_composite, c);
            }
            while self.candidate == self.next_composite.0
                invariant
                    self.candidate == c,
                    cc == c as int,
                    c % 2 == 1,
                    5 <= c < CANDIDATE_LIMIT,
                    !self.halted,
                    self.produced@ == old(self).produced@,
                    emitted_ok(self.produced@, cc),
                    !is_prime(cc),
                    drain_shape(self.pq@, self.next_composite, cc),
                    self.next_composite.0 >= c,
                decreases count_eq(self.pq@, c) + (if self.next_composite.0 == c {
                    1nat
                } else {
                    0nat
                }),
            {
                proof {
                    lemma_drain_prep(self.pq@, self.next_composite, c);
                }
                let (v, s) = self.next_composite;
                let e = (v + s, s);
                let ghost q0 = self.pq@;
                let ghost nc0 = self.next_composite;
                self.pq.push(e);
                let j = min_index(&self.pq);
                let popped = self.pq.remove(j);
                self.next_composite = popped;
                proof {
                    assert(popped == q0.push(e)[j as int]);
                    assert(self.pq@ == q0.push(e).remove(j as int));
                    lemma_drain_step(q0, nc0, c, e, j as int);
                }
            }
            proof {
                assert(self.next_composite.0 > c);
                lemma_drain_to_steady(self.pq@, self.next_composite, c);
                lemma_emitted_skip(self.produced@, cc);
                assert((cc + 1) % 2 == 0) by {
                    lemma_fundamental_div_mod(cc, 2);
                    lemma_fundamental_div_mod_converse(cc + 1, 2, cc / 2 + 1, 0);
                }
                lemma_even_not_prime(cc + 1);
                lemma_emitted_skip(self.produced@, cc + 1);
                assert forall|q: int|
                    old(self).frontier() <= q < CANDIDATE_LIMIT as int && is_prime(
                        q,
                    ) implies cc + 2 <= q by {
                    assert(cc <= q);
                    assert(q != cc);
                    if q == cc + 1 {
                        assert(false);
                    }
                }
                assert((cc + 2) % 2 == 1) by {
                    lemma_fundamental_div_mod(cc, 2);
                    lemma_fundamental_div_mod_converse(cc + 2, 2, cc / 2 + 1, 1);
                }
            }
            self.candidate = c + 2;
        }
    }

    /// Produce the next `n` primes. The result is shorter than `n` only if
    /// the tracker shut down on overflow; requesting zero primes changes
    /// nothing.
    pub fn next_n(&mut self, n: usize) -> (r: Vec<u64>)
        requires
            old(self).wf(),
        ensures
            final(self).wf(),
            emitted_ok(final(self).emitted(), final(self).frontier()),
            final(self).emitted() == old(self).emitted() + r@,
            r@.len() <= n,
            !final(self).failed() ==> r@.len() == n,
            final(self).failed() ==> old(self).failed() || final(self).frontier()
                >= CANDIDATE_LIMIT as int,
            n == 0 ==> *final(self) == *old(self),
    {
        let mut out: Vec<u64> = Vec::new();
        let mut done = false;
        while !done && out.len() < n
            invariant
                self.wf(),
                self.emitted() == old(self).emitted() + out@,
                out@.len() <= n,
                done ==> self.failed(),
                self.failed() ==> old(self).failed() || self.frontier() >= CANDIDATE_LIMIT as int,
                n == 0 ==> *self == *old(self) && out@ == Seq::<u64>::empty(),
            decreases n - out@.len(), (if done {
                0int
            } else {
                1int
            }),
        {
            match self.next() {
                Some(p) => {
                    out.push(p);
                },
                None => {
                    done = true;
                },
            }
        }
        proof {
            self.lemma_wf_emitted_ok();
        }
        out
    }
}

impl Default for QueuePrimesIter {
    /// Same as `new`: a fresh generator whose first output will be 2.
    fn default() -> (r: Self)
        ensures
            r.wf(),
            !r.failed(),
            r.emitted() == Seq::<u64>::empty(),
            r.frontier() == 2,
    {
        Self::new()
    }
}

} // verus!
