//! The packed encoding of a homomorphism: the whole assignment as one
//! unsigned integer of positional base-`codomain_n` digits, together with
//! the capacity check that guards the encoding.

use vstd::prelude::*;

verus! {

use vstd::arithmetic::power::{
    pow, lemma_pow_increases, lemma_pow_multiplies, lemma_pow_positive,
};
use vstd::arithmetic::power2::pow2;
use crate::graphs::UGraph;
use crate::graph_maps::GraphMap;
use crate::graph_maps::permutation_generator::{
    digit_of, digits_of, digits_value, lemma_val_from_bound, pw, val_from,
};

/// Number of bits needed to represent `c`: zero for zero, otherwise one more
/// than for `c / 2`.
pub open spec fn bit_len(c: nat) -> nat
    decreases c,
{
    if c == 0 {
        0
    } else {
        1 + bit_len(c / 2)
    }
}

/// `c < 2^bit_len(c)`.
pub proof fn lemma_bit_len_bound(c: nat)
    ensures
        c < pow2(bit_len(c)),
    decreases c,
{
    if c == 0 {
        vstd::arithmetic::power2::lemma2_to64();
    } else {
        lemma_bit_len_bound(c / 2);
        assert(c <= 2 * (c / 2) + 1);
        assert(pow2(bit_len(c)) == 2 * pow2((bit_len(c) - 1) as nat)) by {
            vstd::arithmetic::power2::lemma_pow2_adds(1, (bit_len(c) - 1) as nat);
            vstd::arithmetic::power2::lemma2_to64();
        }
    }
}

/// The packed encoding of `domain_n` digits in base `codomain_n` fits in
/// `bits` bits: each digit needs `bit_len(codomain_n - 1)` bits.
pub open spec fn spec_check_fits(bits: u32, domain_n: u32, codomain_n: u32) -> bool {
    codomain_n == 0 || bit_len((codomain_n - 1) as nat) * domain_n <= bits
}

/// One step of the power recursion.
pub proof fn lemma_pow_step(b: int, e: nat)
    ensures
        e == 0 ==> pow(b, e) == 1,
        e >= 1 ==> pow(b, e) == b * pow(b, (e - 1) as nat),
{
    reveal(pow);
}

/// Bases below `2^k` keep `base^e` below `2^(k*e)`.
proof fn lemma_pow_base_le(b1: nat, b2: nat, e: nat)
    requires
        b1 <= b2,
    ensures
        pow(b1 as int, e) <= pow(b2 as int, e),
    decreases e,
{
    lemma_pow_step(b1 as int, e);
    lemma_pow_step(b2 as int, e);
    if e > 0 {
        lemma_pow_base_le(b1, b2, (e - 1) as nat);
        if b1 == 0 {
            vstd::arithmetic::power::lemma0_pow(e);
            if b2 == 0 {
                vstd::arithmetic::power::lemma0_pow(e);
            } else {
                lemma_pow_positive(b2 as int, e);
            }
        } else {
            lemma_pow_positive(b1 as int, (e - 1) as nat);
            lemma_pow_positive(b2 as int, (e - 1) as nat);
            assert(b1 as int * pow(b1 as int, (e - 1) as nat) <= b2 as int * pow(
                b2 as int,
                (e - 1) as nat,
            )) by (nonlinear_arith)
                requires
                    0 < b1 <= b2,
                    0 < pow(b1 as int, (e - 1) as nat) <= pow(b2 as int, (e - 1) as nat),
            ;
        }
    }
}

/// When the capacity check passes, every packed value is representable:
/// `codomain_n ^ domain_n <= 2 ^ bits`.
pub proof fn lemma_check_fits_capacity(bits: u32, domain_n: u32, codomain_n: u32)
    requires
        spec_check_fits(bits, domain_n, codomain_n),
        codomain_n >= 1,
    ensures
        pow(codomain_n as int, domain_n as nat) <= pow2(bits as nat),
{
    let b = bit_len((codomain_n - 1) as nat);
    lemma_bit_len_bound((codomain_n - 1) as nat);
    assert(codomain_n as nat <= pow2(b));
    lemma_pow_base_le(codomain_n as nat, pow2(b), domain_n as nat);
    lemma_pow_multiplies(2, b, domain_n as nat);
    lemma_pow_positive(2, b);
    lemma_pow_positive(2, b * domain_n as nat);
    assert(pow2(b) as int == pow(2, b));
    assert(pow(pow2(b) as int, domain_n as nat) == pow2(b * domain_n as nat));
    lemma_pow_increases(2, b * domain_n as nat, bits as nat);
}

/// Number of bits needed to represent `c`.
fn bit_len_exec(c: u32) -> (r: u32)
    ensures
        r as nat == bit_len(c as nat),
        r <= 32,
{
    let mut x = c;
    let mut b: u32 = 0;
    proof {
        vstd::arithmetic::power2::lemma2_to64();
        lemma_bit_len_le_width(c as nat, 32);
    }
    while x > 0
        invariant
            b as nat + bit_len(x as nat) == bit_len(c as nat),
            bit_len(c as nat) <= 32,
        decreases x,
    {
        x = x / 2;
        b = b + 1;
    }
    b
}

/// Values below `2^k` need at most `k` bits.
proof fn lemma_bit_len_le_width(c: nat, k: nat)
    requires
        c < pow2(k),
    ensures
        bit_len(c) <= k,
    decreases c,
{
    if c > 0 {
        if k == 0 {
            vstd::arithmetic::power2::lemma2_to64();
        } else {
            vstd::arithmetic::power2::lemma_pow2_unfold(k);
            assert(c / 2 < pow2((k - 1) as nat));
            lemma_bit_len_le_width(c / 2, (k - 1) as nat);
        }
    }
}

/// Whether an assignment of `domain_n` vertices into a codomain of
/// `codomain_n` vertices fits, packed, into `bits` bits: each digit takes
/// `ceil(log2 codomain_n)` bits, and `domain_n` of them must fit.
pub fn check_fits(bits: u32, domain_n: u32, codomain_n: u32) -> (r: bool)
    ensures
        r == spec_check_fits(bits, domain_n, codomain_n),
{
    if codomain_n == 0 {
        return true;
    }
    let b = bit_len_exec(codomain_n - 1);
    proof {
        assert((b as int) * (domain_n as int) <= 32 * (u32::MAX as int)) by (nonlinear_arith)
            requires
                b <= 32,
                domain_n <= u32::MAX,
        ;
    }
    (b as u64) * (domain_n as u64) <= bits as u64
}

/// A tighter width always keeps the capacity check of a wider one.
pub proof fn lemma_check_fits_widen(bits1: u32, bits2: u32, domain_n: u32, codomain_n: u32)
    requires
        spec_check_fits(bits1, domain_n, codomain_n),
        bits1 <= bits2,
    ensures
        spec_check_fits(bits2, domain_n, codomain_n),
{
}

/// Unpacking the packed value recovers every digit: the two encodings are
/// interconvertible without information loss.
pub proof fn lemma_encoding_round_trip(ds: Seq<u32>, base: u32)
    requires
        1 <= base,
        forall|k: int| 0 <= k < ds.len() ==> ((#[trigger] ds[k]) as nat) < base,
    ensures
        digits_of(digits_value(ds, base as nat), base as nat, ds.len()) == ds,
{
    assert forall|t: int| 0 <= t < ds.len() implies digits_of(
        digits_value(ds, base as nat),
        base as nat,
        ds.len(),
    )[t] == ds[t] by {
        lemma_value_digit(ds, base as nat, t);
        assert(digit_of(digits_value(ds, base as nat), base as nat, t as nat) == ds[t] as nat);
    }
    assert(digits_of(digits_value(ds, base as nat), base as nat, ds.len()) =~= ds);
}

proof fn lemma_value_digit(ds: Seq<u32>, base: nat, t: int)
    requires
        1 <= base,
        0 <= t < ds.len(),
        forall|k: int| 0 <= k < ds.len() ==> ((#[trigger] ds[k]) as nat) < base,
    ensures
        digit_of(digits_value(ds, base), base, t as nat) == ds[t] as nat,
    decreases t,
{
    let v = digits_value(ds, base);
    assert(v == ds[0] + base * val_from(ds, base, 1));
    assert((ds[0] as nat) < base);
    assert(v as int == val_from(ds, base, 1) as int * (base as int) + (ds[0] as int)) by (
    nonlinear_arith)
        requires
            v == ds[0] + base * val_from(ds, base, 1),
    ;
    vstd::arithmetic::div_mod::lemma_fundamental_div_mod_converse(
        v as int,
        base as int,
        val_from(ds, base, 1) as int,
        ds[0] as int,
    );
    assert(v % base == ds[0] as nat);
    assert(v / base == val_from(ds, base, 1));
    let tail = ds.subrange(1, ds.len() as int);
    assert(val_from(tail, base, 0) == val_from(ds, base, 1)) by {
        crate::graph_maps::permutation_generator::lemma_val_from_subrange_at(ds, base, 1, 0);
    }
    if t == 0 {
        lemma_pow_step(base as int, 0);
        vstd::arithmetic::div_mod::lemma_div_basics(v as int);
        assert(digit_of(v, base, 0) == v % base);
    } else {
        assert(forall|k: int| 0 <= k < tail.len() ==> ((#[trigger] tail[k]) as nat) < base);
        lemma_value_digit(tail, base, t - 1);
        assert(digit_of(digits_value(tail, base), base, (t - 1) as nat) == tail[t - 1] as nat);
        lemma_digit_shift_pub(v, base, (t - 1) as nat);
        assert(digits_value(tail, base) == v / base);
        assert(tail[t - 1] == ds[t]);
    }
}

/// Digit `k + 1` of `v` is digit `k` of `v / base`.
proof fn lemma_digit_shift_pub(v: nat, base: nat, k: nat)
    requires
        base >= 1,
    ensures
        digit_of(v / base, base, k) == digit_of(v, base, (k + 1) as nat),
{
    lemma_pow_positive(base as int, k);
    lemma_pow_step(base as int, (k + 1) as nat);
    vstd::arithmetic::div_mod::lemma_div_denominator(
        v as int,
        base as int,
        pw(base, k) as int,
    );
    assert(base as int * pw(base, k) as int == pw(base, (k + 1) as nat) as int) by (
    nonlinear_arith)
        requires
            pow(base as int, (k + 1) as nat) == base as int * pow(base as int, k),
            pow(base as int, k) >= 0,
            pw(base, k) == pow(base as int, k),
            pw(base, (k + 1) as nat) == pow(base as int, (k + 1) as nat),
    ;
}

/// Pack a digit slice into a single integer of positional base-`codomain_n`
/// digits, least-significant digit first.
pub fn slice_convert(slice: &[u32], codomain_n: u32) -> (r: u64)
    requires
        forall|k: int| 0 <= k < slice@.len() ==> ((#[trigger] slice@[k]) as nat) < codomain_n,
        slice@.len() <= u32::MAX as nat,
        spec_check_fits(64, slice@.len() as u32, codomain_n),
    ensures
        r as nat == digits_value(slice@, codomain_n as nat),
{
    let n = slice.len();
    if n == 0 {
        return 0;
    }
    let base = codomain_n as u64;
    proof {
        assert((slice@[0] as nat) < codomain_n);
        lemma_check_fits_capacity(64, n as u32, codomain_n);
        vstd::arithmetic::power2::lemma2_to64_rest();
        assert(pow(codomain_n as int, n as nat) <= 0x1_0000_0000_0000_0000);
    }
    let mut acc: u64 = 0;
    let mut k: usize = n;
    while k > 0
        invariant
            n == slice@.len(),
            0 < n <= u32::MAX as nat,
            base == codomain_n as u64,
            codomain_n >= 1,
            k <= n,
            forall|t: int| 0 <= t < slice@.len() ==> ((#[trigger] slice@[t]) as nat) < codomain_n,
            acc as nat == val_from(slice@, codomain_n as nat, k as int),
            pow(codomain_n as int, n as nat) <= 0x1_0000_0000_0000_0000,
        decreases k,
    {
        k = k - 1;
        proof {
            lemma_val_from_bound(slice@, codomain_n as nat, k as int + 1);
            lemma_pow_step(codomain_n as int, (n - k) as nat);
            vstd::arithmetic::power::lemma_pow_increases(
                codomain_n as nat,
                (n - k) as nat,
                n as nat,
            );
            assert(acc as int * base as int + slice@[k as int] <= pow(
                codomain_n as int,
                (n - k) as nat,
            ) - 1) by (nonlinear_arith)
                requires
                    base as int == codomain_n as int,
                    codomain_n >= 1,
                    acc as int <= pow(codomain_n as int, (n - k - 1) as nat) - 1,
                    slice@[k as int] < codomain_n,
                    pow(codomain_n as int, (n - k) as nat) == codomain_n as int * pow(
                        codomain_n as int,
                        (n - k - 1) as nat,
                    ),
            ;
        }
        let ghost a0 = acc;
        acc = acc * base + (slice[k] as u64);
        proof {
            assert(val_from(slice@, codomain_n as nat, k as int) == (slice@[k as int] + (
            codomain_n as nat) * val_from(slice@, codomain_n as nat, k as int + 1)) as nat);
            assert(a0 as int * (base as int) == (base as int) * (a0 as int)) by (nonlinear_arith);
            assert(acc as int == (base as int) * (a0 as int) + slice@[k as int]);
        }
    }
    acc
}

/// A homomorphism in packed form: the whole assignment as one unsigned
/// integer of positional base-`codomain_n` digits, plus the bit width the
/// encoding was checked against.
#[derive(Debug)]
pub struct StackGraphMap<U: UGraph, V: UGraph> {
    domain: U,
    codomain: V,
    vert_maps: u64,
    bits: u32,
}

impl<U: UGraph, V: UGraph> StackGraphMap<U, V> {
    /// The packed assignment.
    pub closed spec fn spec_val(&self) -> u64 {
        self.vert_maps
    }

    /// The checked bit width.
    pub closed spec fn spec_bits(&self) -> u32 {
        self.bits
    }

    /// The domain graph.
    pub closed spec fn dom_s(&self) -> U {
        self.domain
    }

    /// The codomain graph.
    pub closed spec fn cod_s(&self) -> V {
        self.codomain
    }

    /// The assignment in expanded form.
    pub open spec fn unpacked(&self) -> Seq<u32> {
        digits_of(self.spec_val() as nat, self.cod_s().gn(), self.dom_s().gn())
    }

    /// Both graphs are well formed, the encoding passed its capacity check,
    /// and the unpacked assignment is a homomorphism.
    pub open spec fn wf(&self) -> bool {
        &&& self.dom_s().wf()
        &&& self.cod_s().wf()
        &&& self.dom_s().gn() <= u32::MAX as nat
        &&& self.cod_s().gn() <= u32::MAX as nat
        &&& self.spec_bits() <= 64
        &&& spec_check_fits(
            self.spec_bits(),
            self.dom_s().gn() as u32,
            self.cod_s().gn() as u32,
        )
        &&& crate::graph_maps::map_ok(&self.dom_s(), &self.cod_s(), self.unpacked())
    }

    /// Wrap a packed assignment that the caller has already shown to be a
    /// homomorphism within capacity.
    pub fn new_unchecked(domain: U, codomain: V, vert_maps: u64, bits: u32) -> (r: Self)
        requires
            domain.wf(),
            codomain.wf(),
            domain.gn() <= u32::MAX as nat,
            codomain.gn() <= u32::MAX as nat,
            bits <= 64,
            spec_check_fits(bits, domain.gn() as u32, codomain.gn() as u32),
            crate::graph_maps::map_ok(
                &domain,
                &codomain,
                digits_of(vert_maps as nat, codomain.gn(), domain.gn()),
            ),
        ensures
            r.wf(),
            r.dom_s() == domain,
            r.cod_s() == codomain,
            r.spec_val() == vert_maps,
            r.spec_bits() == bits,
    {
        Self { domain, codomain, vert_maps, bits }
    }

    /// Validate a candidate assignment vertex-by-vertex and pack it on
    /// success, filling the caller's reusable scratch buffer with the
    /// images as they are checked.
    ///
    /// Every image must already be in range (the expanded validator
    /// reports out-of-range images; this one insists on them up front), so
    /// the only failure is a domain edge mapped to a non-edge: the first
    /// violation in scan order, with the smallest earlier endpoint.
    pub fn try_from(
        domain: U,
        codomain: V,
        mapped_verts: &[u32],
        workspace: &mut Vec<u32>,
        bits: u32,
    ) -> (r: Result<Self, crate::graph_maps::GraphMapError>)
        requires
            domain.wf(),
            codomain.wf(),
            bits <= 64,
            spec_check_fits(bits, domain.gn() as u32, codomain.gn() as u32),
            mapped_verts@.len() == domain.gn(),
            forall|k: int|
                0 <= k < mapped_verts@.len() ==> ((#[trigger] mapped_verts@[k]) as nat)
                    < codomain.gn(),
            old(workspace)@.len() >= domain.gn(),
        ensures
            final(workspace)@.len() == old(workspace)@.len(),
            forall|k: int|
                0 <= k < mapped_verts@.len() ==> (#[trigger] final(workspace)@[k])
                    == mapped_verts@[k],
            forall|k: int|
                mapped_verts@.len() <= k < final(workspace)@.len()
                    ==> (#[trigger] final(workspace)@[k]) == old(workspace)@[k],
            r is Ok <==> crate::graph_maps::candidate_ok(&domain, &codomain, mapped_verts@),
            match r {
                Ok(sm) => {
                    &&& sm.wf()
                    &&& sm.dom_s() == domain
                    &&& sm.cod_s() == codomain
                    &&& sm.spec_bits() == bits
                    &&& sm.spec_val() as nat == digits_value(mapped_verts@, codomain.gn())
                    &&& sm.unpacked() == mapped_verts@
                },
                Err(e) => match e {
                    crate::graph_maps::GraphMapError::BadEdge(i, j, mi, mj) => {
                        &&& j < i
                        &&& (i as nat) < mapped_verts@.len()
                        &&& forall|k: int|
                            0 <= k < i ==> crate::graph_maps::vertex_ok(
                                &domain,
                                &codomain,
                                mapped_verts@,
                                k,
                            )
                        &&& domain.edge(j as int, i as int)
                        &&& !codomain.edge(
                            mapped_verts@[j as int] as int,
                            mapped_verts@[i as int] as int,
                        )
                        &&& forall|j2: int|
                            0 <= j2 < j && #[trigger] domain.edge(j2, i as int) ==> codomain.edge(
                                mapped_verts@[j2] as int,
                                mapped_verts@[i as int] as int,
                            )
                        &&& mi == mapped_verts@[i as int]
                        &&& mj == mapped_verts@[j as int]
                    },
                    _ => false,
                },
            },
    {
        proof {
            domain.wf_facts();
            codomain.wf_facts();
        }
        let n = mapped_verts.len();
        let mut i: usize = 0;
        while i < n
            invariant
                n == mapped_verts@.len(),
                i <= n,
                workspace@.len() == old(workspace)@.len(),
                n <= workspace@.len(),
                forall|k: int| 0 <= k < i ==> (#[trigger] workspace@[k]) == mapped_verts@[k],
                forall|k: int|
                    n <= k < workspace@.len() ==> (#[trigger] workspace@[k]) == old(
                        workspace,
                    )@[k],
                forall|k: int|
                    i <= k < n ==> (#[trigger] workspace@[k]) == old(workspace)@[k],
            decreases n - i,
        {
            workspace[i] = mapped_verts[i];
            i += 1;
        }
        match crate::graph_maps::check_map(&domain, &codomain, mapped_verts) {
            crate::graph_maps::MapCheck::Valid => {
                proof {
                    lemma_check_fits_widen(bits, 64, domain.gn() as u32, codomain.gn() as u32);
                    assert(domain.gn() as u32 as nat == mapped_verts@.len());
                }
                let cn = codomain.n();
                let packed = slice_convert(mapped_verts, cn);
                proof {
                    if cn == 0 {
                        assert(mapped_verts@.len() == 0);
                        assert(digits_of(packed as nat, codomain.gn(), domain.gn())
                            =~= mapped_verts@);
                    } else {
                        lemma_encoding_round_trip(mapped_verts@, cn);
                    }
                }
                Ok(StackGraphMap { domain, codomain, vert_maps: packed, bits })
            },
            crate::graph_maps::MapCheck::WrongLen => {
                proof {
                    assert(false);
                }
                Err(crate::graph_maps::GraphMapError::Exhausted)
            },
            crate::graph_maps::MapCheck::OutOfRange { i } => {
                proof {
                    assert(false);
                }
                Err(crate::graph_maps::GraphMapError::Exhausted)
            },
            crate::graph_maps::MapCheck::BadPair { i, j, mi, mj } => {
                proof {
                    assert(!crate::graph_maps::vertex_ok(
                        &domain,
                        &codomain,
                        mapped_verts@,
                        i as int,
                    )) by {
                        if crate::graph_maps::vertex_ok(&domain, &codomain, mapped_verts@, i as int) {
                            assert(domain.edge(j as int, i as int));
                            assert(codomain.edge(
                                mapped_verts@[j as int] as int,
                                mapped_verts@[i as int] as int,
                            ));
                        }
                    }
                }
                Err(crate::graph_maps::GraphMapError::BadEdge(i, j, mi, mj))
            },
        }
    }

    /// Stream the expanded digits of the packed assignment.
    pub fn iter(&self) -> (r: crate::graph_maps::permutation_generator::PermutationIterator)
        requires
            self.wf(),
        ensures
            r.wf(),
            r.spec_index() == 0,
            r.spec_original() == self.spec_val(),
            r.spec_codomain() as nat == self.cod_s().gn(),
            r.spec_domain() as nat == self.dom_s().gn(),
    {
        proof {
            self.domain.wf_facts();
            self.codomain.wf_facts();
            if self.dom_s().gn() > 0 {
                assert((self.unpacked()[0] as nat) < self.cod_s().gn());
            }
        }
        crate::graph_maps::permutation_generator::PermutationIterator::new(
            self.vert_maps,
            self.codomain.n(),
            self.domain.n(),
        )
    }

    /// Expand the packed assignment back into one value per vertex.
    pub fn to_vert_map(self) -> (r: crate::graph_maps::VertGraphMap<U, V>)
        requires
            self.wf(),
        ensures
            r.wf(),
            r.spec_domain() == self.dom_s(),
            r.spec_codomain() == self.cod_s(),
            r.verts() == self.unpacked(),
    {
        let ghost base = self.cod_s().gn();
        let mut it = self.iter();
        let n = self.domain.n();
        let mut digits: Vec<u32> = Vec::new();
        let mut k: u32 = 0;
        while k < n
            invariant
                it.wf(),
                it.spec_index() == k,
                it.spec_original() == self.spec_val(),
                it.spec_codomain() as nat == base,
                it.spec_domain() == n,
                n as nat == self.dom_s().gn(),
                k <= n,
                digits@.len() == k as nat,
                forall|t: int|
                    0 <= t < k ==> (#[trigger] digits@[t]) as nat == digit_of(
                        self.spec_val() as nat,
                        base,
                        t as nat,
                    ),
            decreases n - k,
        {
            match it.next() {
                Option::Some(dd) => {
                    digits.push(dd);
                    proof {
                        assert(it.spec_codomain() >= 1);
                        vstd::arithmetic::div_mod::lemma_mod_bound(
                            (self.spec_val() as nat / pw(base, k as nat)) as int,
                            base as int,
                        );
                        assert(digit_of(self.spec_val() as nat, base, k as nat) < base);
                        assert(digits@[k as int] as nat == digit_of(
                            self.spec_val() as nat,
                            base,
                            k as nat,
                        ));
                    }
                },
                Option::None => {
                    proof {
                        assert(false);
                    }
                },
            }
            k += 1;
        }
        proof {
            assert(digits@ =~= self.unpacked());
        }
        crate::graph_maps::VertGraphMap::new_unchecked(self.domain, self.codomain, digits)
    }

    /// Pack an expanded homomorphism, checking the encoding capacity
    /// first; the packed value is never silently truncated.
    pub fn from_vert_map(m: crate::graph_maps::VertGraphMap<U, V>, bits: u32) -> (r: Result<
        Self,
        crate::graph_maps::GraphMapError,
    >)
        requires
            m.wf(),
            bits <= 64,
        ensures
            r is Ok <==> spec_check_fits(
                bits,
                m.spec_domain().gn() as u32,
                m.spec_codomain().gn() as u32,
            ),
            match r {
                Ok(sm) => {
                    &&& sm.wf()
                    &&& sm.dom_s() == m.spec_domain()
                    &&& sm.cod_s() == m.spec_codomain()
                    &&& sm.spec_bits() == bits
                    &&& sm.spec_val() as nat == digits_value(m.verts(), m.spec_codomain().gn())
                    &&& sm.unpacked() == m.verts()
                },
                Err(e) => e is EncodingOverflow,
            },
    {
        proof {
            m.wf_facts();
            m.spec_domain().wf_facts();
            m.spec_codomain().wf_facts();
        }
        let dn = m.domain().n();
        let cn = m.codomain().n();
        if !check_fits(bits, dn, cn) {
            return Err(crate::graph_maps::GraphMapError::EncodingOverflow);
        }
        proof {
            lemma_check_fits_widen(bits, 64, dn, cn);
        }
        let packed = slice_convert(m.verts_vec().as_slice(), cn);
        let ghost verts = m.verts();
        let ghost base = m.spec_codomain().gn();
        proof {
            if cn == 0 {
                assert(verts.len() == 0);
                assert(digits_of(packed as nat, base, 0) =~= verts);
            } else {
                lemma_encoding_round_trip(verts, cn);
                assert(digits_of(packed as nat, base, m.spec_domain().gn()) == verts);
            }
        }
        let (dom, cod, _expanded) = m.into_parts();
        let sm = StackGraphMap { domain: dom, codomain: cod, vert_maps: packed, bits };
        proof {
            assert(sm.unpacked() == verts) by {
                assert(sm.cod_s().gn() == base);
            }
        }
        Ok(sm)
    }
}

} // verus!
