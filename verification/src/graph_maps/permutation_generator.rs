//! The digit generator: lazily enumerates every function from an n-element
//! domain to an m-element codomain as its base-m digit sequence, one
//! counter step at a time, terminating when the counter returns to its
//! seed.

use vstd::prelude::*;

verus! {

use vstd::arithmetic::power::{pow, lemma_pow_positive};
use crate::graph_maps::stack_map::lemma_pow_step;
use vstd::arithmetic::div_mod::{
    lemma_div_denominator, lemma_fundamental_div_mod, lemma_mod_add_multiples_vanish,
    lemma_mod_bound, lemma_mod_self_0, lemma_small_mod,
};

/// Little-endian value of the digit suffix `ds[k..]` in the given base:
/// digit `k` has weight one.
pub open spec fn val_from(ds: Seq<u32>, base: nat, k: int) -> nat
    decreases ds.len() - k,
{
    if k < 0 || k >= ds.len() {
        0
    } else {
        (ds[k] + base * val_from(ds, base, k + 1)) as nat
    }
}

/// Little-endian value of a digit sequence.
pub open spec fn digits_value(ds: Seq<u32>, base: nat) -> nat {
    val_from(ds, base, 0)
}

/// Digit `k` of `v` in the given base, least-significant first.
pub open spec fn digit_of(v: nat, base: nat, k: nat) -> nat {
    (v / (pow(base as int, k) as nat)) % base
}

/// The base-`base` digit sequence of `v`, `len` digits long.
pub open spec fn digits_of(v: nat, base: nat, len: nat) -> Seq<u32> {
    Seq::new(len, |k: int| digit_of(v, base, k as nat) as u32)
}

proof fn lemma_val_from_eq(a: Seq<u32>, b: Seq<u32>, base: nat, k: int)
    requires
        a.len() == b.len(),
        forall|t: int| k <= t < a.len() ==> a[t] == b[t],
    ensures
        val_from(a, base, k) == val_from(b, base, k),
    decreases a.len() - k,
{
    if 0 <= k < a.len() {
        lemma_val_from_eq(a, b, base, k + 1);
    }
}

proof fn lemma_val_from_zeros(ds: Seq<u32>, base: nat, t: int)
    requires
        0 <= t <= ds.len(),
        forall|j: int| 0 <= j < t ==> ds[j] == 0,
    ensures
        val_from(ds, base, 0) == pow(base as int, t as nat) * val_from(ds, base, t),
    decreases t,
{
    lemma_pow_step(base as int, t as nat);
    if t == 0 {
    } else {
        let sub = ds.subrange(1, ds.len() as int);
        assert(forall|j: int| 0 <= j < t - 1 ==> sub[j] == 0);
        lemma_val_from_zeros(sub, base, t - 1);
        assert(val_from(ds, base, 0) == ds[0] + base * val_from(ds, base, 1));
        assert(val_from(sub, base, 0) == val_from(ds, base, 1)) by {
            lemma_val_from_subrange(ds, base, 1);
        }
        assert(val_from(sub, base, t - 1) == val_from(ds, base, t)) by {
            lemma_val_from_subrange_at(ds, base, 1, t - 1);
        }
        assert(base * (pow(base as int, (t - 1) as nat) * val_from(ds, base, t)) == pow(
            base as int,
            t as nat,
        ) * val_from(ds, base, t)) by (nonlinear_arith)
            requires
                pow(base as int, t as nat) == base * pow(base as int, (t - 1) as nat),
        ;
    }
}

proof fn lemma_val_from_subrange(ds: Seq<u32>, base: nat, s: int)
    requires
        0 <= s <= ds.len(),
    ensures
        val_from(ds.subrange(s, ds.len() as int), base, 0) == val_from(ds, base, s),
{
    lemma_val_from_subrange_at(ds, base, s, 0);
}

/// The suffix values of a tail subrange line up with the original's.
pub proof fn lemma_val_from_subrange_at(ds: Seq<u32>, base: nat, s: int, k: int)
    requires
        0 <= s <= ds.len(),
        0 <= k,
    ensures
        val_from(ds.subrange(s, ds.len() as int), base, k) == val_from(ds, base, s + k),
    decreases ds.len() - s - k,
{
    let sub = ds.subrange(s, ds.len() as int);
    if k < sub.len() {
        lemma_val_from_subrange_at(ds, base, s, k + 1);
    }
}

proof fn lemma_val_from_nines(ds: Seq<u32>, base: nat, t: int)
    requires
        base >= 1,
        0 <= t <= ds.len(),
        forall|j: int| 0 <= j < t ==> ds[j] == base - 1,
    ensures
        val_from(ds, base, 0) + 1 == pow(base as int, t as nat) * (val_from(ds, base, t) + 1),
    decreases t,
{
    lemma_pow_step(base as int, t as nat);
    if t == 0 {
    } else {
        let sub = ds.subrange(1, ds.len() as int);
        assert(forall|j: int| 0 <= j < t - 1 ==> sub[j] == base - 1);
        lemma_val_from_nines(sub, base, t - 1);
        assert(val_from(sub, base, 0) == val_from(ds, base, 1)) by {
            lemma_val_from_subrange(ds, base, 1);
        }
        assert(val_from(sub, base, t - 1) == val_from(ds, base, t)) by {
            lemma_val_from_subrange_at(ds, base, 1, t - 1);
        }
        assert(val_from(ds, base, 0) == ds[0] + base * val_from(ds, base, 1));
        assert(ds[0] == base - 1);
        let x = val_from(ds, base, 1);
        let y = val_from(ds, base, t);
        let p = pow(base as int, (t - 1) as nat);
        assert(x + 1 == p * (y + 1));
        assert((base - 1) + base * x + 1 == base * (x + 1)) by (nonlinear_arith)
            requires
                base >= 1,
        ;
        assert(base * (p * (y + 1)) == (base * p) * (y + 1)) by (nonlinear_arith);
    }
}

/// Digits below the base keep every suffix value below the corresponding
/// power of the base.
pub proof fn lemma_val_from_bound(ds: Seq<u32>, base: nat, k: int)
    requires
        base >= 1,
        0 <= k <= ds.len(),
        forall|j: int| 0 <= j < ds.len() ==> ((#[trigger] ds[j]) as nat) < base,
    ensures
        val_from(ds, base, k) < pow(base as int, (ds.len() - k) as nat),
    decreases ds.len() - k,
{
    lemma_pow_step(base as int, (ds.len() - k) as nat);
    if k == ds.len() {
    } else {
        lemma_val_from_bound(ds, base, k + 1);
        let x = val_from(ds, base, k + 1);
        let e = (ds.len() - k - 1) as nat;
        assert(ds[k] + base * x <= (base - 1) + base * x);
        assert((base - 1) + base * x < base * pow(base as int, e)) by (nonlinear_arith)
            requires
                base >= 1,
                0 <= x,
                x < pow(base as int, e),
        ;
    }
}

/// `base ^ e` as a natural number.
pub open spec fn pw(b: nat, e: nat) -> nat {
    pow(b as int, e) as nat
}

/// Streams the base-`codomain` digits of one packed value, least
/// significant first, one digit per domain vertex.
#[derive(Clone, Debug, Copy, PartialEq, Eq)]
pub struct PermutationIterator {
    val: u64,
    original_val: u64,
    index: u32,
    codomain: u32,
    domain: u32,
}

impl PermutationIterator {
    /// The packed value the iterator was started from.
    pub closed spec fn spec_original(&self) -> u64 {
        self.original_val
    }

    /// How many digits have been handed out.
    pub closed spec fn spec_index(&self) -> u32 {
        self.index
    }

    /// The digit base.
    pub closed spec fn spec_codomain(&self) -> u32 {
        self.codomain
    }

    /// The number of digits.
    pub closed spec fn spec_domain(&self) -> u32 {
        self.domain
    }

    /// The remaining value.
    pub closed spec fn spec_val(&self) -> u64 {
        self.val
    }

    /// The remaining value equals the original with the handed-out digits
    /// divided away.
    pub open spec fn wf(&self) -> bool {
        &&& self.spec_domain() > 0 ==> self.spec_codomain() >= 1
        &&& self.spec_index() <= self.spec_domain()
        &&& self.spec_val() as nat == (self.spec_original() as nat) / pw(
            self.spec_codomain() as nat,
            self.spec_index() as nat,
        )
    }

    /// Start streaming the digits of `val`.
    pub fn new(val: u64, codomain: u32, domain: u32) -> (r: Self)
        requires
            domain > 0 ==> codomain >= 1,
        ensures
            r.wf(),
            r.spec_original() == val,
            r.spec_index() == 0,
            r.spec_codomain() == codomain,
            r.spec_domain() == domain,
    {
        proof {
            lemma_pow_step(codomain as int, 0);
            vstd::arithmetic::div_mod::lemma_div_basics(val as int);
        }
        Self { original_val: val, val, index: 0, codomain, domain }
    }

    /// The next digit, or `None` after `domain` digits.
    pub fn next(&mut self) -> (r: Option<u32>)
        requires
            old(self).wf(),
        ensures
            final(self).wf(),
            final(self).spec_original() == old(self).spec_original(),
            final(self).spec_codomain() == old(self).spec_codomain(),
            final(self).spec_domain() == old(self).spec_domain(),
            old(self).spec_index() >= old(self).spec_domain() ==> r is None && *final(self)
                == *old(self),
            old(self).spec_index() < old(self).spec_domain() ==> {
                &&& final(self).spec_index() == old(self).spec_index() + 1
                &&& r == Some(
                    digit_of(
                        old(self).spec_original() as nat,
                        old(self).spec_codomain() as nat,
                        old(self).spec_index() as nat,
                    ) as u32,
                )
            },
    {
        if self.index >= self.domain {
            return None;
        }
        let c = self.codomain as u64;
        let remainder = self.val % c;
        proof {
            let orig = self.original_val as nat;
            let base = self.codomain as nat;
            let k = self.index as nat;
            lemma_pow_positive(base as int, k);
            lemma_pow_step(base as int, (k + 1) as nat);
            lemma_div_denominator(orig as int, pw(base, k) as int, base as int);
            assert(pw(base, k) as int * base as int == pw(base, (k + 1) as nat) as int) by (
            nonlinear_arith)
                requires
                    pow(base as int, (k + 1) as nat) == base as int * pow(base as int, k),
                    pow(base as int, k) >= 0,
                    pw(base, k) == pow(base as int, k),
                    pw(base, (k + 1) as nat) == pow(base as int, (k + 1) as nat),
            ;
        }
        self.val = self.val / c;
        self.index = self.index + 1;
        Some(remainder as u32)
    }
}

/// Counts over all `codomain ^ domain` packed values, starting at a seed
/// and stepping by one modulo the total, terminating when the counter
/// returns to the seed.
#[derive(Clone, Debug, Copy, PartialEq, Eq)]
pub struct PermutationGenerator {
    seed: u64,
    current: Option<u64>,
    num_permutations: u64,
    codomain: u32,
    domain: u32,
}

impl PermutationGenerator {
    /// The normalized seed.
    pub closed spec fn spec_seed(&self) -> u64 {
        self.seed
    }

    /// The counter: `None` before the first step.
    pub closed spec fn spec_current(&self) -> Option<u64> {
        self.current
    }

    /// The cycle length `codomain ^ domain`.
    pub closed spec fn spec_num(&self) -> u64 {
        self.num_permutations
    }

    /// The digit base.
    pub closed spec fn spec_codomain(&self) -> u32 {
        self.codomain
    }

    /// The number of digits.
    pub closed spec fn spec_domain(&self) -> u32 {
        self.domain
    }

    /// The cycle length is exactly `codomain ^ domain`, the seed and the
    /// counter stay inside the cycle, and an empty cycle never starts.
    pub closed spec fn wf(&self) -> bool {
        &&& self.num_permutations as nat == pw(self.codomain as nat, self.domain as nat)
        &&& self.num_permutations > 0 ==> self.seed < self.num_permutations
        &&& self.num_permutations == 0 ==> self.current is None && self.seed == 0
        &&& match self.current {
            Option::Some(c) => c < self.num_permutations,
            Option::None => true,
        }
    }

    /// How many digit sequences have been handed out so far; the
    /// generator is exhausted when this reaches the cycle length.
    pub open spec fn emitted(&self) -> nat {
        match self.spec_current() {
            Option::Some(c) => {
                let d = (c as int - self.spec_seed() as int) % (self.spec_num() as int);
                if d == 0 {
                    self.spec_num() as nat
                } else {
                    d as nat
                }
            },
            Option::None => 0,
        }
    }

    /// A fresh generator over all functions from a `domain`-element set to
    /// a `codomain`-element set, starting from the given seed value taken
    /// modulo the cycle length.
    pub fn new(domain: u32, codomain: u32, val: u64) -> (r: Self)
        requires
            pow(codomain as int, domain as nat) <= u64::MAX as int,
        ensures
            r.wf(),
            r.spec_codomain() == codomain,
            r.spec_domain() == domain,
            r.spec_num() as nat == pw(codomain as nat, domain as nat),
            r.emitted() == 0,
            r.spec_num() > 0 ==> r.spec_seed() as int == val as int % r.spec_num() as int,
    {
        let mut acc: u64 = 1;
        let mut k: u32 = 0;
        proof {
            lemma_pow_step(codomain as int, 0);
        }
        while k < domain
            invariant
                k <= domain,
                acc as int == pow(codomain as int, k as nat),
                pow(codomain as int, domain as nat) <= u64::MAX as int,
            decreases domain - k,
        {
            proof {
                lemma_pow_step(codomain as int, (k + 1) as nat);
                if codomain >= 1 {
                    vstd::arithmetic::power::lemma_pow_increases(
                        codomain as nat,
                        (k + 1) as nat,
                        domain as nat,
                    );
                } else {
                    vstd::arithmetic::power::lemma0_pow((k + 1) as nat);
                }
                assert(acc as int * (codomain as int) == pow(codomain as int, (k + 1) as nat))
                    by (nonlinear_arith)
                    requires
                        acc as int == pow(codomain as int, k as nat),
                        pow(codomain as int, (k + 1) as nat) == codomain as int * pow(
                            codomain as int,
                            k as nat,
                        ),
                ;
            }
            acc = acc * (codomain as u64);
            k += 1;
        }
        let num = acc;
        let seed = if num == 0 {
            0
        } else {
            val % num
        };
        Self { seed, current: None, num_permutations: num, codomain, domain }
    }

    /// A fresh generator, or `None` when `codomain ^ domain` cannot be
    /// represented in 64 bits — the stated ceiling of brute-force
    /// enumeration.
    pub fn try_new(domain: u32, codomain: u32, val: u64) -> (r: Option<Self>)
        ensures
            r is Some <==> pow(codomain as int, domain as nat) <= u64::MAX as int,
            match r {
                Option::Some(g) => {
                    &&& g.wf()
                    &&& g.spec_codomain() == codomain
                    &&& g.spec_domain() == domain
                    &&& g.spec_num() as nat == pw(codomain as nat, domain as nat)
                    &&& g.emitted() == 0
                },
                Option::None => true,
            },
    {
        let mut acc: u64 = 1;
        let mut k: u32 = 0;
        proof {
            lemma_pow_step(codomain as int, 0);
        }
        while k < domain
            invariant
                k <= domain,
                acc as int == pow(codomain as int, k as nat),
            decreases domain - k,
        {
            proof {
                lemma_pow_step(codomain as int, (k + 1) as nat);
            }
            acc = match acc.checked_mul(codomain as u64) {
                Option::Some(x) => x,
                Option::None => {
                    proof {
                        assert(acc as int * (codomain as int) == pow(
                            codomain as int,
                            (k + 1) as nat,
                        )) by (nonlinear_arith)
                            requires
                                acc as int == pow(codomain as int, k as nat),
                                pow(codomain as int, (k + 1) as nat) == codomain as int * pow(
                                    codomain as int,
                                    k as nat,
                                ),
                        ;
                        assert(codomain >= 1) by {
                            if codomain == 0 {
                                assert(acc as int * 0 == 0) by (nonlinear_arith);
                            }
                        }
                        vstd::arithmetic::power::lemma_pow_increases(
                            codomain as nat,
                            (k + 1) as nat,
                            domain as nat,
                        );
                    }
                    return None;
                },
            };
            k += 1;
        }
        Some(Self::new(domain, codomain, val))
    }

    /// Hand out the next digit sequence of the cycle, or `None` once the
    /// counter has come back around to the seed.
    pub fn next(&mut self) -> (r: Option<PermutationIterator>)
        requires
            old(self).wf(),
        ensures
            final(self).wf(),
            final(self).spec_seed() == old(self).spec_seed(),
            final(self).spec_num() == old(self).spec_num(),
            final(self).spec_codomain() == old(self).spec_codomain(),
            final(self).spec_domain() == old(self).spec_domain(),
            old(self).emitted() >= old(self).spec_num() ==> r is None && *final(self) == *old(
                self,
            ),
            old(self).emitted() < old(self).spec_num() ==> {
                &&& final(self).emitted() == old(self).emitted() + 1
                &&& match r {
                    Option::Some(it) => {
                        &&& it.wf()
                        &&& it.spec_index() == 0
                        &&& it.spec_codomain() == old(self).spec_codomain()
                        &&& it.spec_domain() == old(self).spec_domain()
                        &&& it.spec_original() as int == (old(self).spec_seed() as int + old(
                            self,
                        ).emitted() as int) % (old(self).spec_num() as int)
                    },
                    Option::None => false,
                }
            },
    {
        let num = self.num_permutations;
        let cur_opt = self.current;
        match cur_opt {
            Option::Some(c) => {
                if c == self.seed {
                    proof {
                        lemma_small_mod(0, num as nat);
                        assert(self.emitted() == num as nat);
                    }
                    return None;
                }
            },
            Option::None => {
                if num == 0 {
                    return None;
                }
            },
        }
        let current = match cur_opt {
            Option::Some(c) => c,
            Option::None => self.seed,
        };
        proof {
            if self.num_permutations > 0 && self.domain > 0 && self.codomain == 0 {
                vstd::arithmetic::power::lemma0_pow(self.domain as nat);
            }
        }
        let it = PermutationIterator::new(current, self.codomain, self.domain);
        let ghost e = self.emitted();
        let ghost seed = self.seed as int;
        let ghost numi = num as int;
        proof {
            lemma_emitted_value(seed, numi, current as int, cur_opt is Some);
        }
        let next_counter = (current + 1) % num;
        self.current = Some(next_counter);
        proof {
            lemma_emitted_step(seed, numi, current as int, e as int);
        }
        Some(it)
    }
}

/// The counter value determines the emission index: the current counter is
/// `(seed + emitted) % num`.
proof fn lemma_emitted_value(seed: int, num: int, c: int, started: bool)
    requires
        0 < num,
        0 <= seed < num,
        0 <= c < num,
        started ==> c != seed,
        !started ==> c == seed,
    ensures
        ({
            let d = (c - seed) % num;
            let e = if !started {
                0
            } else if d == 0 {
                num
            } else {
                d
            };
            &&& (started ==> 0 < d < num)
            &&& (!started ==> 0 <= e < num)
            &&& (seed + e) % num == c
        }),
{
    let d = (c - seed) % num;
    if !started {
        lemma_small_mod(seed as nat, num as nat);
    } else {
        if c >= seed {
            lemma_small_mod((c - seed) as nat, num as nat);
            lemma_small_mod(c as nat, num as nat);
        } else {
            lemma_mod_add_multiples_vanish(c - seed, num);
            lemma_small_mod((c - seed + num) as nat, num as nat);
            assert(d == c - seed + num);
            lemma_mod_add_multiples_vanish(c, num);
            lemma_small_mod(c as nat, num as nat);
        }
    }
}

/// Stepping the counter advances the emission index by exactly one.
proof fn lemma_emitted_step(seed: int, num: int, c: int, e: int)
    requires
        0 < num,
        0 <= seed < num,
        0 <= c < num,
        0 <= e < num,
        (seed + e) % num == c,
    ensures
        ({
            let c2 = (c + 1) % num;
            let d2 = (c2 - seed) % num;
            (if d2 == 0 {
                num
            } else {
                d2
            }) == e + 1
        }),
{
    let c2 = (c + 1) % num;
    let d2 = (c2 - seed) % num;
    lemma_add_mod_noop_left(seed + e, 1, num);
    assert(c2 == (seed + e + 1) % num);
    lemma_sub_mod_noop_left(seed + e + 1, seed, num);
    assert(d2 == (e + 1) % num);
    if e + 1 == num {
        lemma_mod_self_0(num);
    } else {
        lemma_small_mod((e + 1) as nat, num as nat);
    }
}

/// `(x % m + y) % m == (x + y) % m`.
proof fn lemma_add_mod_noop_left(x: int, y: int, m: int)
    requires
        0 < m,
    ensures
        (x % m + y) % m == (x + y) % m,
{
    vstd::arithmetic::div_mod::lemma_add_mod_noop(x, y, m);
    vstd::arithmetic::div_mod::lemma_mod_twice(y, m);
    vstd::arithmetic::div_mod::lemma_add_mod_noop(x % m, y, m);
    vstd::arithmetic::div_mod::lemma_mod_twice(x, m);
}

/// `((x % m) - y) % m == (x - y) % m`.
proof fn lemma_sub_mod_noop_left(x: int, y: int, m: int)
    requires
        0 < m,
    ensures
        (x % m - y) % m == (x - y) % m,
{
    vstd::arithmetic::div_mod::lemma_sub_mod_noop(x, y, m);
    vstd::arithmetic::div_mod::lemma_mod_twice(y, m);
    vstd::arithmetic::div_mod::lemma_sub_mod_noop(x % m, y, m);
    vstd::arithmetic::div_mod::lemma_mod_twice(x, m);
}

/// Two distinct steps of one counter cycle give distinct values.
pub proof fn lemma_cycle_distinct(seed: int, num: int, k1: int, k2: int)
    requires
        0 < num,
        0 <= seed < num,
        0 <= k1 < k2 < num,
    ensures
        (seed + k1) % num != (seed + k2) % num,
{
    if (seed + k1) % num == (seed + k2) % num {
        lemma_fundamental_div_mod(seed + k1, num);
        lemma_fundamental_div_mod(seed + k2, num);
        let q1 = (seed + k1) / num;
        let q2 = (seed + k2) / num;
        assert(num * q2 - num * q1 == k2 - k1);
        assert(false) by (nonlinear_arith)
            requires
                num * q2 - num * q1 == k2 - k1,
                0 < k2 - k1 < num,
        ;
    }
}

/// Distinct packed values below `base ^ len` have distinct digit
/// sequences.
pub proof fn lemma_digits_of_injective(v1: nat, v2: nat, base: nat, len: nat)
    requires
        1 <= base <= u32::MAX as nat,
        v1 < pw(base, len),
        v2 < pw(base, len),
        digits_of(v1, base, len) == digits_of(v2, base, len),
    ensures
        v1 == v2,
    decreases len,
{
    lemma_pow_step(base as int, len);
    if len == 0 {
    } else {
        let w1 = v1 / base;
        let w2 = v2 / base;
        assert(digits_of(v1, base, len)[0] == digits_of(v2, base, len)[0]);
        lemma_pow_step(base as int, 0);
        vstd::arithmetic::div_mod::lemma_div_basics(v1 as int);
        vstd::arithmetic::div_mod::lemma_div_basics(v2 as int);
        assert(digit_of(v1, base, 0) == v1 % base);
        assert(digit_of(v2, base, 0) == v2 % base);
        assert(v1 % base < base);
        assert(v2 % base < base);
        assert(digits_of(v1, base, len)[0] == (v1 % base) as u32);
        assert(digits_of(v2, base, len)[0] == (v2 % base) as u32);
        assert(v1 % base == v2 % base);
        lemma_pow_positive(base as int, (len - 1) as nat);
        assert(w1 < pw(base, (len - 1) as nat) && w2 < pw(base, (len - 1) as nat)) by (
        nonlinear_arith)
            requires
                base >= 1,
                w1 == v1 / base,
                w2 == v2 / base,
                v1 < base * pw(base, (len - 1) as nat),
                v2 < base * pw(base, (len - 1) as nat),
                pw(base, (len - 1) as nat) >= 1,
        ;
        assert forall|k: int| 0 <= k < len - 1 implies (#[trigger] digits_of(
            w1,
            base,
            (len - 1) as nat,
        )[k]) == digits_of(w2, base, (len - 1) as nat)[k] by {
            lemma_digit_shift(v1, base, k as nat);
            lemma_digit_shift(v2, base, k as nat);
            assert(digits_of(v1, base, len)[k + 1] == digits_of(v2, base, len)[k + 1]);
            assert(digits_of(v1, base, len)[k + 1] == digit_of(v1, base, (k + 1) as nat) as u32);
            assert(digits_of(v2, base, len)[k + 1] == digit_of(v2, base, (k + 1) as nat) as u32);
            assert(digits_of(w1, base, (len - 1) as nat)[k] == digit_of(w1, base, k as nat) as u32);
            assert(digits_of(w2, base, (len - 1) as nat)[k] == digit_of(w2, base, k as nat) as u32);
            assert(digit_of(w1, base, k as nat) == digit_of(v1, base, (k + 1) as nat));
            assert(digit_of(w2, base, k as nat) == digit_of(v2, base, (k + 1) as nat));
        }
        assert(digits_of(w1, base, (len - 1) as nat) =~= digits_of(w2, base, (len - 1) as nat));
        lemma_digits_of_injective(w1, w2, base, (len - 1) as nat);
        lemma_fundamental_div_mod(v1 as int, base as int);
        lemma_fundamental_div_mod(v2 as int, base as int);
        assert(v1 as int == base as int * (v1 as int / base as int) + (v1 as int % base as int));
        assert(v2 as int == base as int * (v2 as int / base as int) + (v2 as int % base as int));
    }
}

/// Digit `k + 1` of `v` is digit `k` of `v / base`.
proof fn lemma_digit_shift(v: nat, base: nat, k: nat)
    requires
        base >= 1,
    ensures
        digit_of(v / base, base, k) == digit_of(v, base, (k + 1) as nat),
{
    lemma_pow_positive(base as int, k);
    lemma_pow_step(base as int, (k + 1) as nat);
    lemma_div_denominator(v as int, base as int, pw(base, k) as int);
    assert(base as int * pw(base, k) as int == pw(base, (k + 1) as nat) as int) by (
    nonlinear_arith)
        requires
            pow(base as int, (k + 1) as nat) == base as int * pow(base as int, k),
            pow(base as int, k) >= 0,
            pw(base, k) == pow(base as int, k),
            pw(base, (k + 1) as nat) == pow(base as int, (k + 1) as nat),
    ;
}

/// Two distinct emissions of one generator cycle carry distinct packed
/// values, and therefore distinct digit sequences.
pub proof fn lemma_generator_exhaustive(
    seed: u64,
    num: u64,
    codomain: u32,
    domain: u32,
    k1: int,
    k2: int,
)
    requires
        num as nat == pw(codomain as nat, domain as nat),
        num > 0,
        seed < num,
        0 <= k1 < k2 < num,
    ensures
        (seed as int + k1) % (num as int) != (seed as int + k2) % (num as int),
        codomain >= 1 ==> digits_of(
            (((seed as int + k1) % (num as int)) as nat),
            codomain as nat,
            domain as nat,
        ) != digits_of(
            (((seed as int + k2) % (num as int)) as nat),
            codomain as nat,
            domain as nat,
        ),
{
    lemma_cycle_distinct(seed as int, num as int, k1, k2);
    let v1 = ((seed as int + k1) % (num as int)) as nat;
    let v2 = ((seed as int + k2) % (num as int)) as nat;
    lemma_mod_bound(seed as int + k1, num as int);
    lemma_mod_bound(seed as int + k2, num as int);
    if codomain >= 1 {
        if digits_of(v1, codomain as nat, domain as nat) == digits_of(
            v2,
            codomain as nat,
            domain as nat,
        ) {
            lemma_digits_of_injective(v1, v2, codomain as nat, domain as nat);
        }
    }
}

/// Increment a number represented as little-endian digits in a given base:
/// adds one modulo `base^len`, and reports whether the carry stayed inside
/// (false exactly when every digit wrapped around to zero).
pub fn increment_mod_base(digits: &mut Vec<u32>, base: u32) -> (r: bool)
    requires
        base >= 1,
        forall|j: int|
            0 <= j < old(digits)@.len() ==> ((#[trigger] old(digits)@[j]) as nat) < base,
    ensures
        final(digits)@.len() == old(digits)@.len(),
        forall|j: int|
            0 <= j < final(digits)@.len() ==> ((#[trigger] final(digits)@[j]) as nat) < base,
        r ==> digits_value(final(digits)@, base as nat) == digits_value(
            old(digits)@,
            base as nat,
        ) + 1,
        !r ==> {
            &&& digits_value(old(digits)@, base as nat) + 1 == pow(
                base as int,
                old(digits)@.len(),
            )
            &&& digits_value(final(digits)@, base as nat) == 0
        },
{
    let ghost orig = digits@;
    let n = digits.len();
    let mut t: usize = 0;
    while t < n
        invariant
            base >= 1,
            n == digits@.len(),
            n == orig.len(),
            orig == old(digits)@,
            t <= n,
            forall|j: int| 0 <= j < n ==> ((#[trigger] orig[j]) as nat) < base,
            forall|j: int| 0 <= j < t ==> (#[trigger] digits@[j]) == 0,
            forall|j: int| 0 <= j < t ==> (#[trigger] orig[j]) as nat == base - 1,
            forall|j: int| t <= j < n ==> (#[trigger] digits@[j]) == orig[j],
        decreases n - t,
    {
        let d = digits[t];
        if d + 1 >= base {
            digits[t] = 0;
            proof {
                assert(d as nat == base - 1);
            }
        } else {
            digits[t] = d + 1;
            proof {
                let cur = digits@;
                lemma_val_from_zeros(cur, base as nat, t as int);
                lemma_val_from_nines(orig, base as nat, t as int);
                lemma_val_from_eq(cur, orig, base as nat, t as int + 1);
                assert(val_from(cur, base as nat, t as int) == cur[t as int] + base * val_from(
                    cur,
                    base as nat,
                    t as int + 1,
                ));
                assert(val_from(orig, base as nat, t as int) == orig[t as int] + base * val_from(
                    orig,
                    base as nat,
                    t as int + 1,
                ));
                assert(val_from(cur, base as nat, t as int) == val_from(orig, base as nat, t as int)
                    + 1);
                let p = pow(base as int, t as nat);
                let vo = val_from(orig, base as nat, t as int);
                assert(p * (vo + 1) == p * vo + p) by (nonlinear_arith);
            }
            return true;
        }
        t += 1;
    }
    proof {
        lemma_val_from_zeros(digits@, base as nat, n as int);
        lemma_val_from_nines(orig, base as nat, n as int);
        assert(val_from(digits@, base as nat, n as int) == 0);
        assert(val_from(orig, base as nat, n as int) == 0);
        assert(pow(base as int, n as nat) * 0 == 0) by (nonlinear_arith);
        assert(pow(base as int, n as nat) * (0 + 1) == pow(base as int, n as nat))
            by (nonlinear_arith);
    }
    false
}

} // verus!
