//! Primality: the exact mathematical definition, trial division, the sieve
//! that fills the membership index, and the oracle that answers queries.
use vstd::prelude::*;
use vstd::arithmetic::div_mod::*;
use vstd::arithmetic::mul::*;
use crate::bits::{bitset_contains, bitset_insert, bitset_members, bitset_new, bitset_remove};

verus! {

/// `n` is prime: at least 2 and without a divisor strictly between 1 and `n`.
pub open spec fn is_prime(n: int) -> bool {
    n >= 2 && forall|d: int| 2 <= d < n ==> #[trigger] (n % d) != 0
}

/// `n` is composite: at least 2 and not prime.
pub open spec fn composite(n: int) -> bool {
    n >= 2 && !is_prime(n)
}

/// Trial division as the fallback path performs it: true unless some `d` in
/// `[2, n/2]` divides `n`. It makes no exception for `n <= 1`.
pub open spec fn no_divisor_up_to_half(n: int) -> bool {
    forall|d: int| 2 <= d <= n / 2 ==> #[trigger] (n % d) != 0
}

/// For `n >= 2`, trial division up to `n/2` decides primality exactly.
pub proof fn lemma_trial_division_exact(n: int)
    requires
        n >= 2,
    ensures
        no_divisor_up_to_half(n) == is_prime(n),
{
    if no_divisor_up_to_half(n) {
        assert forall|d: int| 2 <= d < n implies #[trigger] (n % d) != 0 by {
            if d > n / 2 {
                lemma_fundamental_div_mod(n, 2);
                lemma_fundamental_div_mod_converse_mod(n, d, 1, n - d);
            }
        }
    }
    if is_prime(n) {
        assert forall|d: int| 2 <= d <= n / 2 implies #[trigger] (n % d) != 0 by {
            lemma_fundamental_div_mod(n, 2);
            assert(d < n);
        }
    }
}

/// Trial division of `p` by every `d` in `[2, p/2]`; slow for large `p`.
pub fn trial_division(p: u64) -> (r: bool)
    ensures
        r == no_divisor_up_to_half(p as int),
{
    let half: u64 = p / 2;
    let mut d: u64 = 2;
    while d <= half
        invariant
            2 <= d,
            half == p / 2,
            forall|e: int| 2 <= e < d ==> #[trigger] ((p as int) % e) != 0,
        decreases half + 1 - d,
    {
        if p % d == 0 {
            return false;
        }
        d = d + 1;
    }
    true
}

/// `d` strikes `k` in the sieve: `k` is a multiple `d * j` with `j >= 2`.
pub open spec fn struck_by(k: int, d: int) -> bool {
    k % d == 0 && k / d >= 2
}

/// Some `d` in `[lo, hi)` strikes `k`.
pub open spec fn sieved(k: int, lo: int, hi: int) -> bool {
    exists|d: int| lo <= d < hi && #[trigger] struck_by(k, d)
}

proof fn lemma_sieved_step(k: int, i: int)
    requires
        i >= 2,
    ensures
        sieved(k, 2, i + 1) == (sieved(k, 2, i) || struck_by(k, i)),
{
    if sieved(k, 2, i + 1) {
        let d = choose|d: int| 2 <= d < i + 1 && #[trigger] struck_by(k, d);
        if d < i {
            assert(sieved(k, 2, i));
        }
    }
    if struck_by(k, i) {
        assert(2 <= i < i + 1 && struck_by(k, i));
    }
    if sieved(k, 2, i) {
        let d = choose|d: int| 2 <= d < i && #[trigger] struck_by(k, d);
        assert(2 <= d < i + 1 && struck_by(k, d));
    }
}

/// Below or at `n`, the numbers struck by some `d` in `[2, n/2]` are exactly
/// the composite ones.
proof fn lemma_sieved_composite(k: int, n: int)
    requires
        0 <= k <= n,
    ensures
        sieved(k, 2, n / 2 + 1) == composite(k),
{
    if sieved(k, 2, n / 2 + 1) {
        let d = choose|d: int| 2 <= d < n / 2 + 1 && #[trigger] struck_by(k, d);
        lemma_fundamental_div_mod(k, d);
        assert(d * (k / d) >= d * 2) by (nonlinear_arith)
            requires k / d >= 2, d >= 2;
        assert(2 <= d < k);
        assert(!is_prime(k));
    }
    if composite(k) {
        let d = choose|d: int| 2 <= d < k && #[trigger] (k % d) != 0 == false;
        lemma_fundamental_div_mod(k, d);
        assert(k / d >= 2) by (nonlinear_arith)
            requires k == d * (k / d), d < k, d >= 2;
        assert(d <= k / 2) by {
            assert(d * (k / d) >= d * 2) by (nonlinear_arith)
                requires k / d >= 2, d >= 2;
            lemma_fundamental_div_mod(k, 2);
        }
        lemma_div_is_ordered(k, n, 2);
        assert(struck_by(k, d));
    }
}

/// The contents of the index after `setup_prime_set(s, old_max, new_max)`:
/// below `new_max`, exactly the primes that were members or lie at or above
/// `old_max`; at `new_max`, the former members that are not composite; above
/// it, the former members.
pub open spec fn prime_set_after(old: Set<nat>, old_max: nat, new_max: nat) -> Set<nat> {
    Set::new(
        |k: nat|
            if k < new_max {
                (old.contains(k) || old_max <= k) && is_prime(k as int)
            } else if k == new_max {
                old.contains(k) && !composite(k as int)
            } else {
                old.contains(k)
            },
    )
}

/// Makes every number in `[old_max, new_max)` a member, then removes 0, 1 and
/// every composite up to `new_max` by the sieve of Eratosthenes.
pub fn setup_prime_set(prime_set: &mut bit_set::BitSet, old_max: usize, new_max: usize)
    ensures
        bitset_members(*final(prime_set)) == prime_set_after(
            bitset_members(*old(prime_set)),
            old_max as nat,
            new_max as nat,
        ),
{
    let ghost start = bitset_members(*prime_set);
    let ghost filled = Set::new(
        |k: nat|
            if k < new_max {
                (start.contains(k) || old_max <= k) && k >= 2
            } else {
                start.contains(k)
            },
    );
    let mut i: usize = old_max;
    while i < new_max
        invariant
            old_max <= i,
            i <= new_max || i == old_max,
            forall|k: nat|
                #[trigger] bitset_members(*prime_set).contains(k) == (start.contains(k) || (
                old_max <= k < i)),
        decreases new_max - i,
    {
        bitset_insert(prime_set, i);
        i = i + 1;
    }
    assert forall|k: nat| #[trigger] bitset_members(*prime_set).contains(k) == (start.contains(k)
        || (old_max <= k < new_max)) by {}
    let mut z: usize = 0;
    while z < 2 && z < new_max
        invariant
            z <= 2,
            z <= new_max,
            forall|k: nat|
                #[trigger] bitset_members(*prime_set).contains(k) == (if k < z {
                    false
                } else {
                    start.contains(k) || (old_max <= k < new_max)
                }),
        decreases 2 - z,
    {
        bitset_remove(prime_set, z);
        z = z + 1;
    }
    assert forall|k: nat| #[trigger] bitset_members(*prime_set).contains(k) == filled.contains(k) by {}
    let ghost n = new_max as int;
    let mut i: usize = 2;
    while i <= new_max / 2
        invariant
            2 <= i,
            i <= new_max / 2 + 1 || i == 2,
            n == new_max,
            forall|k: nat|
                #[trigger] bitset_members(*prime_set).contains(k) == (filled.contains(k) && !(k
                    <= n && sieved(k as int, 2, i as int))),
        decreases new_max / 2 + 1 - i,
    {
        proof {
            lemma_div_is_ordered(i as int, n, i as int);
            lemma_div_by_multiple(1, i as int);
            lemma_div_is_ordered_by_denominator(n, 2, i as int);
        }
        let mut j: usize = 2;
        while j <= new_max / i
            invariant
                2 <= i < new_max / 2 + 1,
                2 <= j <= new_max / i + 1,
                new_max / i <= new_max / 2,
                n == new_max,
                forall|k: nat|
                    #[trigger] bitset_members(*prime_set).contains(k) == (filled.contains(k) && !(k
                        <= n && (sieved(k as int, 2, i as int) || ((k as int) % (i as int) == 0 && 2
                        <= (k as int) / (i as int) < j)))),
            decreases new_max / i + 1 - j,
        {
            proof {
                lemma_mul_inequality(j as int, n / (i as int), i as int);
                lemma_fundamental_div_mod(n, i as int);
                lemma_mul_is_commutative(j as int, i as int);
                lemma_mul_is_commutative(n / (i as int), i as int);
            }
            let m: usize = i * j;
            bitset_remove(prime_set, m);
            proof {
                lemma_mod_multiples_basic(j as int, i as int);
                lemma_div_by_multiple(j as int, i as int);
                assert forall|k: nat|
                    #[trigger] bitset_members(*prime_set).contains(k) == (filled.contains(k) && !(k
                        <= n && (sieved(k as int, 2, i as int) || ((k as int) % (i as int) == 0
                        && 2 <= (k as int) / (i as int) < j + 1)))) by {
                    if (k as int) % (i as int) == 0 && (k as int) / (i as int) == j {
                        lemma_fundamental_div_mod(k as int, i as int);
                    }
                }
            }
            j = j + 1;
        }
        proof {
            assert forall|k: nat|
                #[trigger] bitset_members(*prime_set).contains(k) == (filled.contains(k) && !(k
                    <= n && sieved(k as int, 2, i + 1))) by {
                lemma_sieved_step(k as int, i as int);
                if k <= n {
                    lemma_div_is_ordered(k as int, n, i as int);
                }
            }
        }
        i = i + 1;
    }
    proof {
        assert forall|k: nat| #[trigger] bitset_members(*prime_set).contains(k) == prime_set_after(
            start, old_max as nat, new_max as nat).contains(k) by {
            if k <= n {
                lemma_sieved_composite(k as int, n);
            }
        }
        assert(bitset_members(*prime_set) =~= prime_set_after(start, old_max as nat, new_max as nat));
    }
}

/// The primality oracle: a membership index over `[0, bound)` built once by
/// the sieve, and trial division for everything at or above `bound`.
pub struct PrimeOracle {
    index: bit_set::BitSet,
    bound: usize,
}

impl PrimeOracle {
    /// The numbers the membership index holds.
    pub closed spec fn index_members(&self) -> Set<nat> {
        bitset_members(self.index)
    }

    /// The exclusive upper end of the range that the index covers.
    pub closed spec fn spec_bound(&self) -> nat {
        self.bound as nat
    }

    /// The index holds exactly the primes below the bound.
    pub closed spec fn wf(&self) -> bool {
        forall|k: nat| k < self.bound ==> (#[trigger] bitset_members(self.index).contains(k)
            == is_prime(k as int))
    }

    /// Builds the membership index over `[0, bound)`.
    pub fn new(bound: usize) -> (r: PrimeOracle)
        ensures
            r.wf(),
            r.spec_bound() == bound,
    {
        let mut index = bitset_new();
        setup_prime_set(&mut index, 0, bound);
        PrimeOracle { index, bound }
    }

    /// The exclusive upper end of the range that the index covers.
    pub fn bound(&self) -> (r: usize)
        ensures
            r == self.spec_bound(),
    {
        self.bound
    }

    /// Whether `value` is prime: never for `value <= 1`, by the index below the
    /// bound, by trial division at or above it.
    pub fn is_prime(&self, value: i64) -> (r: bool)
        requires
            self.wf(),
        ensures
            r == is_prime(value as int),
            value <= 1 ==> !r,
            0 <= value < self.spec_bound() ==> r == self.index_members().contains(value as nat),
            value >= 2 && value >= self.spec_bound() ==> r == no_divisor_up_to_half(value as int),
    {
        if value <= 1 {
            return false;
        }
        let p: u64 = value as u64;
        if p < self.bound as u64 {
            return bitset_contains(&self.index, p as usize);
        }
        let r = trial_division(p);
        proof {
            lemma_trial_division_exact(value as int);
        }
        r
    }
}

/// Every number below the bound is in the index exactly when it is prime.
pub proof fn lemma_index_is_exact(o: &PrimeOracle, k: nat)
    requires
        o.wf(),
        k < o.spec_bound(),
    ensures
        o.index_members().contains(k) == is_prime(k as int),
{
}

} // verus!
