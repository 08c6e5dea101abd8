use std::collections::HashMap;

use vstd::prelude::*;
use vstd::arithmetic::div_mod::{lemma_fundamental_div_mod, lemma_fundamental_div_mod_converse};

use crate::primality::{emitted_ok, is_prime, lemma_emitted_push, lemma_emitted_skip, lemma_least_prime_factor};
use crate::CANDIDATE_LIMIT;

verus! {

broadcast use vstd::std_specs::hash::group_hash_axioms;

/// Prime `f` is booked to strike the future composite `k`, seen from
/// candidate `c`: `k` is the smallest multiple of `f` that is both at least
/// `c` and at least `f * f`.
spec fn entry_ok(f: int, k: int, c: int) -> bool {
    &&& is_prime(f)
    &&& 2 <= f < c
    &&& k % f == 0
    &&& k >= c
    &&& f * f <= k
    &&& (k == f * f || k - f < c)
}

/// The whole factors table is consistent for candidate `c`: entries are
/// nonempty, every booked prime sits at its proper next strike, and every
/// prime below `c` is booked somewhere.
spec fn table_shape(t: Map<u64, Vec<u64>>, c: int) -> bool {
    &&& (forall|k: u64| #[trigger] t.contains_key(k) ==> t[k]@.len() >= 1)
    &&& (forall|k: u64, i: int|
        #![trigger t[k]@[i]]
        t.contains_key(k) && 0 <= i < t[k]@.len() ==> entry_ok(t[k]@[i] as int, k as int, c))
    &&& (forall|p: int|
        is_prime(p) && 2 <= p < c ==> exists|k: u64, i: int|
            #![trigger t[k]@[i]]
            t.contains_key(k) && 0 <= i < t[k]@.len() && t[k]@[i] as int == p)
}

/// Mid-reschedule shape: the strike at `c` has been consumed, the factors
/// before `idx` are rebooked for `c + 1`, those from `idx` on are still
/// waiting in `factors`.
spec fn reschedule_shape(t: Map<u64, Vec<u64>>, factors: Seq<u64>, idx: int, c: int) -> bool {
    &&& (forall|k: u64| #[trigger] t.contains_key(k) ==> t[k]@.len() >= 1)
    &&& (forall|k: u64, i: int|
        #![trigger t[k]@[i]]
        t.contains_key(k) && 0 <= i < t[k]@.len() ==> entry_ok(t[k]@[i] as int, k as int, c + 1))
    &&& (forall|p: int|
        is_prime(p) && 2 <= p < c ==> (exists|k: u64, i: int|
            #![trigger t[k]@[i]]
            t.contains_key(k) && 0 <= i < t[k]@.len() && t[k]@[i] as int == p) || (exists|j: int|
            #![trigger factors[j]]
            idx <= j < factors.len() && factors[j] as int == p))
}

/// Every waiting factor was booked to strike exactly at `c`.
spec fn factors_booked(factors: Seq<u64>, c: int) -> bool {
    forall|j: int| 0 <= j < factors.len() ==> entry_ok(#[trigger] factors[j] as int, c, c)
}

/// Consuming the strike at key `c` leaves the table in mid-reschedule shape.
proof fn lemma_begin_composite(t: Map<u64, Vec<u64>>, c: u64)
    requires
        table_shape(t, c as int),
        t.contains_key(c),
    ensures
        reschedule_shape(t.remove(c), t[c]@, 0, c as int),
        factors_booked(t[c]@, c as int),
        !is_prime(c as int),
{
    let cc = c as int;
    let t1 = t.remove(c);
    let factors = t[c]@;
    assert(entry_ok(factors[0] as int, cc, cc));
    assert(cc % (factors[0] as int) == 0);
    assert(!is_prime(cc));
    assert forall|j: int| 0 <= j < factors.len() implies entry_ok(
        #[trigger] factors[j] as int,
        cc,
        cc,
    ) by {
        assert(t[c]@[j] == factors[j]);
    }
    assert forall|k: u64, i: int|
        #![trigger t1[k]@[i]]
        t1.contains_key(k) && 0 <= i < t1[k]@.len() implies entry_ok(
        t1[k]@[i] as int,
        k as int,
        cc + 1,
    ) by {
        assert(t.contains_key(k) && t[k] == t1[k]);
        assert(entry_ok(t[k]@[i] as int, k as int, cc));
        assert(k != c);
    }
    assert forall|p: int| is_prime(p) && 2 <= p < cc implies (exists|k: u64, i: int|
        #![trigger t1[k]@[i]]
        t1.contains_key(k) && 0 <= i < t1[k]@.len() && t1[k]@[i] as int == p) || (exists|j: int|
        #![trigger factors[j]]
        0 <= j < factors.len() && factors[j] as int == p) by {
        let (k, i) = choose|k: u64, i: int|
            #![trigger t[k]@[i]]
            t.contains_key(k) && 0 <= i < t[k]@.len() && t[k]@[i] as int == p;
        if k == c {
            assert(factors[i] as int == p);
        } else {
            assert(t1[k]@[i] as int == p);
        }
    }
}

/// Rebooking the waiting factor at `idx` onto key `c + f` keeps the
/// mid-reschedule shape, with one factor fewer waiting.
proof fn lemma_reschedule_step(
    t: Map<u64, Vec<u64>>,
    factors: Seq<u64>,
    idx: int,
    c: u64,
    entry: Vec<u64>,
)
    requires
        reschedule_shape(t, factors, idx, c as int),
        factors_booked(factors, c as int),
        0 <= idx < factors.len(),
        c as int + factors[idx] as int <= u64::MAX,
        entry@ == if t.contains_key((c + factors[idx]) as u64) {
            t[(c + factors[idx]) as u64]@.push(factors[idx])
        } else {
            seq![factors[idx]]
        },
    ensures
        reschedule_shape(
            t.insert((c + factors[idx]) as u64, entry),
            factors,
            idx + 1,
            c as int,
        ),
{
    let cc = c as int;
    let f = factors[idx];
    let fi = f as int;
    let k2 = (c + f) as u64;
    let t2 = t.insert(k2, entry);
    assert(entry_ok(fi, cc, cc));
    lemma_fundamental_div_mod(cc, fi);
    assert((cc / fi + 1) * fi == fi * (cc / fi) + fi) by (nonlinear_arith);
    lemma_fundamental_div_mod_converse(cc + fi, fi, cc / fi + 1, 0);
    assert((k2 as int) % fi == 0);
    assert(entry_ok(fi, k2 as int, cc + 1));
    assert forall|k: u64, i: int|
        #![trigger t2[k]@[i]]
        t2.contains_key(k) && 0 <= i < t2[k]@.len() implies entry_ok(
        t2[k]@[i] as int,
        k as int,
        cc + 1,
    ) by {
        if k == k2 {
            if t.contains_key(k2) && i < t[k2]@.len() {
                assert(t2[k2]@[i] == t[k2]@[i]);
            } else {
                assert(t2[k]@[i] == f);
            }
        } else {
            assert(t.contains_key(k) && t[k] == t2[k]);
        }
    }
    assert forall|p: int| is_prime(p) && 2 <= p < cc implies (exists|k: u64, i: int|
        #![trigger t2[k]@[i]]
        t2.contains_key(k) && 0 <= i < t2[k]@.len() && t2[k]@[i] as int == p) || (exists|j: int|
        #![trigger factors[j]]
        idx + 1 <= j < factors.len() && factors[j] as int == p) by {
        if exists|k: u64, i: int|
            #![trigger t[k]@[i]]
            t.contains_key(k) && 0 <= i < t[k]@.len() && t[k]@[i] as int == p {
            let (k, i) = choose|k: u64, i: int|
                #![trigger t[k]@[i]]
                t.contains_key(k) && 0 <= i < t[k]@.len() && t[k]@[i] as int == p;
            if k == k2 {
                assert(t2[k2]@[i] == t[k2]@[i]);
                assert(t2[k2]@[i] as int == p);
            } else {
                assert(t2[k]@[i] as int == p);
            }
        } else {
            let j = choose|j: int|
                #![trigger factors[j]]
                idx <= j < factors.len() && factors[j] as int == p;
            if j == idx {
                assert(t2[k2]@[entry@.len() - 1] as int == p);
            }
        }
    }
}

/// Once no factor is left waiting, the table is consistent for the next
/// candidate.
proof fn lemma_end_composite(t: Map<u64, Vec<u64>>, factors: Seq<u64>, c: u64)
    requires
        reschedule_shape(t, factors, factors.len() as int, c as int),
        !is_prime(c as int),
    ensures
        table_shape(t, c as int + 1),
{
    let cc = c as int;
    assert forall|p: int| is_prime(p) && 2 <= p < cc + 1 implies exists|k: u64, i: int|
        #![trigger t[k]@[i]]
        t.contains_key(k) && 0 <= i < t[k]@.len() && t[k]@[i] as int == p by {
        assert(p != cc);
        assert(!(exists|j: int|
            #![trigger factors[j]]
            factors.len() <= j < factors.len() && factors[j] as int == p));
    }
}

/// A candidate with no booking has no prime factor below it: it is prime.
proof fn lemma_untracked_is_prime(t: Map<u64, Vec<u64>>, c: u64)
    requires
        table_shape(t, c as int),
        !t.contains_key(c),
        c >= 2,
    ensures
        is_prime(c as int),
{
    let cc = c as int;
    if !is_prime(cc) {
        let p = lemma_least_prime_factor(cc);
        let (k, i) = choose|k: u64, i: int|
            #![trigger t[k]@[i]]
            t.contains_key(k) && 0 <= i < t[k]@.len() && t[k]@[i] as int == p;
        let ki = k as int;
        assert(entry_ok(p, ki, cc));
        if ki > cc {
            if ki == p * p {
                assert(false);
            } else {
                lemma_fundamental_div_mod(ki, p);
                lemma_fundamental_div_mod(cc, p);
                assert(ki >= cc + p) by (nonlinear_arith)
                    requires
                        ki == p * (ki / p),
                        cc == p * (cc / p),
                        ki > cc,
                        p >= 2,
                ;
                assert(false);
            }
        }
        assert(ki == cc);
        assert(false);
    }
}

/// A freshly discovered prime's square is not yet booked: every booked key
/// is a near multiple of a smaller prime, and the square of `c` is neither.
proof fn lemma_square_fresh(t: Map<u64, Vec<u64>>, c: u64)
    requires
        table_shape(t, c as int),
        is_prime(c as int),
        2 <= c < CANDIDATE_LIMIT,
    ensures
        c as int * (c as int) <= u64::MAX,
        !t.contains_key((c * c) as u64),
{
    let cc = c as int;
    assert(cc * cc <= 0xFFFF_FFFE_0000_0001) by (nonlinear_arith)
        requires
            0 <= cc < 0x1_0000_0000,
    ;
    let sq = (c * c) as u64;
    if t.contains_key(sq) {
        let g = t[sq]@[0] as int;
        assert(entry_ok(g, sq as int, cc));
        assert(g < cc);
        if (sq as int) == g * g {
            assert(g == cc) by (nonlinear_arith)
                requires
                    g * g == cc * cc,
                    g >= 2,
                    cc >= 2,
            ;
            assert(false);
        } else {
            assert((sq as int) - g < cc);
            assert(false) by (nonlinear_arith)
                requires
                    cc * cc < cc + g,
                    2 <= g < cc,
            ;
        }
    }
}

/// Booking the square of a fresh prime `c` makes the table consistent for
/// the next candidate.
proof fn lemma_emit_prime(t: Map<u64, Vec<u64>>, c: u64, entry: Vec<u64>)
    requires
        table_shape(t, c as int),
        is_prime(c as int),
        2 <= c < CANDIDATE_LIMIT,
        c as int * (c as int) <= u64::MAX,
        entry@ == seq![c],
    ensures
        table_shape(t.insert((c * c) as u64, entry), c as int + 1),
{
    let cc = c as int;
    let sq = (c * c) as u64;
    lemma_square_fresh(t, c);
    let t2 = t.insert(sq, entry);
    lemma_fundamental_div_mod_converse(cc * cc, cc, cc, 0);
    assert(cc * cc >= cc + 1) by (nonlinear_arith)
        requires
            cc >= 2,
    ;
    assert(entry_ok(cc, sq as int, cc + 1));
    assert forall|k: u64, i: int|
        #![trigger t2[k]@[i]]
        t2.contains_key(k) && 0 <= i < t2[k]@.len() implies entry_ok(
        t2[k]@[i] as int,
        k as int,
        cc + 1,
    ) by {
        if k == sq {
            assert(t2[k]@[i] == c);
        } else {
            assert(t.contains_key(k) && t[k] == t2[k]);
            assert(entry_ok(t[k]@[i] as int, k as int, cc));
            assert(k != c);
        }
    }
    assert forall|p: int| is_prime(p) && 2 <= p < cc + 1 implies exists|k: u64, i: int|
        #![trigger t2[k]@[i]]
        t2.contains_key(k) && 0 <= i < t2[k]@.len() && t2[k]@[i] as int == p by {
        if p < cc {
            let (k, i) = choose|k: u64, i: int|
                #![trigger t[k]@[i]]
                t.contains_key(k) && 0 <= i < t[k]@.len() && t[k]@[i] as int == p;
            assert(k != sq);
            assert(t2[k]@[i] as int == p);
        } else {
            assert(t2[sq]@[0] as int == p);
        }
    }
}

/// A generator of the primes in increasing order, tracking future
/// composites in an associative table: each not-yet-reached composite is
/// keyed to the primes whose next multiple it is.
pub struct MapPrimesIter {
    factors_table: HashMap<u64, Vec<u64>>,
    candidate: u64,
    produced: Ghost<Seq<u64>>,
    halted: bool,
}

impl MapPrimesIter {
    /// The primes produced so far, in the order they came out.
    pub closed spec fn emitted(self) -> Seq<u64> {
        self.produced@
    }

    /// The next integer to be classified: every prime below it has been
    /// produced, and nothing else has.
    pub closed spec fn frontier(self) -> int {
        self.candidate as int
    }

    /// Whether the generator has shut down because a tracked value would
    /// no longer fit in a `u64`.
    pub closed spec fn failed(self) -> bool {
        self.halted
    }

    /// The generator is consistent: the produced sequence is exactly the
    /// primes below the frontier, and the table books every one of them.
    pub closed spec fn wf(self) -> bool {
        &&& self.candidate >= 2
        &&& emitted_ok(self.produced@, self.candidate as int)
        &&& table_shape(self.factors_table@, self.candidate as int)
    }

    /// A consistent generator's output is the increasing sequence of all
    /// primes below its frontier.
    pub proof fn lemma_wf_emitted_ok(self)
        requires
            self.wf(),
        ensures
            emitted_ok(self.emitted(), self.frontier()),
    {
    }

    /// A fresh generator: nothing produced, first candidate is 2.
    pub fn new() -> (r: Self)
        ensures
            r.wf(),
            !r.failed(),
            r.emitted() == Seq::<u64>::empty(),
            r.frontier() == 2,
    {
        MapPrimesIter {
            factors_table: HashMap::new(),
            candidate: 2,
            produced: Ghost(Seq::empty()),
            halted: false,
        }
    }

    /// Produce the next prime, in increasing order.
    ///
    /// Returns `None` only when the tracker would have to book a composite
    /// beyond `u64::MAX`; the generator then stays shut down. Success is
    /// guaranteed while the next prime lies below `CANDIDATE_LIMIT`.
    pub fn next(&mut self) -> (r: Option<u64>)
        requires
            old(self).wf(),
        ensures
            final(self).wf(),
            emitted_ok(final(self).emitted(), final(self).frontier()),
            match r {
                Some(p) => {
                    &&& !old(self).failed()
                    &&& !final(self).failed()
                    &&& final(self).emitted() == old(self).emitted().push(p)
                    &&& is_prime(p as int)
                    &&& old(self).frontier() <= (p as int)
                    &&& (p as int) < final(self).frontier()
                },
                None => {
                    &&& final(self).failed()
                    &&& final(self).emitted() == old(self).emitted()
                },
            },
            old(self).frontier() <= final(self).frontier(),
            final(self).failed() ==> old(self).failed() || final(self).frontier()
                >= CANDIDATE_LIMIT as int,
            (!old(self).failed() && exists|q: int|
                old(self).frontier() <= q < CANDIDATE_LIMIT as int && is_prime(q)) ==> r is Some,
    {
        if self.halted {
            return None;
        }
        loop
            invariant
                self.wf(),
                !self.halted,
                !old(self).halted,
                self.produced@ == old(self).produced@,
                old(self).candidate <= self.candidate,
                forall|q: int|
                    old(self).frontier() <= q < CANDIDATE_LIMIT as int && is_prime(q)
                        ==> self.candidate as int <= q,
            decreases u64::MAX - self.candidate,
        {
            let c = self.candidate;
            if c >= CANDIDATE_LIMIT {
                self.halted = true;
                return None;
            }
            let ghost t0 = self.factors_table@;
            let ghost cc = c as int;
            match self.factors_table.remove(&c) {
                Some(factors) => {
                    // `c` is a tracked composite: every prime booked against it
                    // strikes now and is rebooked to its next multiple.
                    proof {
                        assert(t0.contains_key(c) && t0[c] == factors);
                        assert(self.factors_table@ == t0.remove(c));
                        lemma_begin_composite(t0, c);
                        assert(reschedule_shape(self.factors_table@, factors@, 0, cc));
                    }
                    let n = factors.len();
                    let mut idx: usize = 0;
                    while idx < n
                        invariant
                            0 <= idx <= n,
                            n == factors@.len(),
                            self.candidate == c,
                            cc == c as int,
                            c < CANDIDATE_LIMIT,
                            !self.halted,
                            self.produced@ == old(self).produced@,
                            emitted_ok(self.produced@, cc),
                            factors_booked(factors@, cc),
                            reschedule_shape(self.factors_table@, factors@, idx as int, cc),
                        decreases n - idx,
                    {
                        let f = factors[idx];
                        proof {
                            assert(entry_ok(f as int, cc, cc));
                            assert(c + f <= u64::MAX) by {
                                assert(c < CANDIDATE_LIMIT);
                                assert(f < c);
                            }
                        }
                        let k2 = c + f;
                        let ghost t1 = self.factors_table@;
                        let mut entry: Vec<u64>;
                        match self.factors_table.remove(&k2) {
                            Some(prior) => {
                                entry = prior;
                                proof {
                                    assert(t1.contains_key(k2) && t1[k2] == entry);
                                }
                            },
                            None => {
                                entry = Vec::new();
                            },
                        }
                        entry.push(f);
                        proof {
                            assert(entry@ == if t1.contains_key(k2) {
                                t1[k2]@.push(f)
                            } else {
                                seq![f]
                            });
                        }
                        self.factors_table.insert(k2, entry);
                        proof {
                            assert(self.factors_table@ == t1.remove(k2).insert(k2, entry));
                            assert(t1.remove(k2).insert(k2, entry) =~= t1.insert(k2, entry));
                            lemma_reschedule_step(t1, factors@, idx as int, c, entry);
                            assert(reschedule_shape(
                                self.factors_table@,
                                factors@,
                                idx as int + 1,
                                cc,
                            ));
                        }
                        idx += 1;
                    }
                    proof {
                        lemma_end_composite(self.factors_table@, factors@, c);
                        lemma_emitted_skip(self.produced@, cc);
                        assert forall|q: int|
                            old(self).frontier() <= q < CANDIDATE_LIMIT as int && is_prime(
                                q,
                            ) implies cc + 1 <= q by {
                            assert(cc <= q);
                            assert(q != cc);
                        }
                    }
                    self.candidate = c + 1;
                },
                None => {
                    // `c` carries no booking, so no prime below it divides it:
                    // `c` is prime. Book its square, the first composite it
                    // will produce that smaller primes do not already cover.
                    proof {
                        assert(!t0.contains_key(c));
                        assert(self.factors_table@ == t0.remove(c));
                        assert(t0.remove(c) =~= t0);
                        lemma_untracked_is_prime(t0, c);
                        lemma_square_fresh(t0, c);
                    }
                    let sq = c * c;
                    let mut entry: Vec<u64> = Vec::new();
                    entry.push(c);
                    proof {
                        assert(entry@ =~= seq![c]);
                    }
                    self.factors_table.insert(sq, entry);
                    proof {
                        lemma_emit_prime(t0, c, entry);
                        assert(table_shape(self.factors_table@, cc + 1));
                        lemma_emitted_push(self.produced@, c);
                    }
                    self.produced = Ghost(self.produced@.push(c));
                    self.candidate = c + 1;
                    return Some(c);
                },
            }
        }
    }

    /// Produce the next `n` primes. The result is shorter than `n` only if
    /// the tracker shut down on overflow; requesting zero primes changes
    /// nothing.
    pub fn next_n(&mut self, n: usize) -> (r: Vec<u64>)
        requires
            old(self).wf(),
        ensures
            final(self).wf(),
            emitted_ok(final(self).emitted(), final(self).frontier()),
            final(self).emitted() == old(self).emitted() + r@,
            r@.len() <= n,
            !final(self).failed() ==> r@.len() == n,
            final(self).failed() ==> old(self).failed() || final(self).frontier()
                >= CANDIDATE_LIMIT as int,
            n == 0 ==> *final(self) == *old(self),
    {
        let mut out: Vec<u64> = Vec::new();
        let mut done = false;
        while !done && out.len() < n
            invariant
                self.wf(),
                self.emitted() == old(self).emitted() + out@,
                out@.len() <= n,
                done ==> self.failed(),
                self.failed() ==> old(self).failed() || self.frontier() >= CANDIDATE_LIMIT as int,
                n == 0 ==> *self == *old(self) && out@ == Seq::<u64>::empty(),
            decreases n - out@.len(), (if done {
                0int
            } else {
                1int
            }),
        {
            match self.next() {
                Some(p) => {
                    out.push(p);
                },
                None => {
                    done = true;
                },
            }
        }
        out
    }
}

impl Default for MapPrimesIter {
    /// Same as `new`: a fresh generator whose first output will be 2.
    fn default() -> (r: Self)
        ensures
            r.wf(),
            !r.failed(),
            r.emitted() == Seq::<u64>::empty(),
            r.frontier() == 2,
    {
        Self::new()
    }
}

} // verus!
