//! Records as byte strings, and their commitments under the Lagrange part of the reference
//! string: the commitment to a record is the commitment to its record polynomial.
use vstd::prelude::*;
use vstd::arithmetic::div_mod::lemma_fundamental_div_mod;
use vstd::arithmetic::power2::{lemma2_to64, lemma_pow2_unfold, pow2};
use vstd::arithmetic::div_mod::{lemma_add_mod_noop, lemma_small_mod};
use crate::field::{Scalar, fadd, modulus};
use crate::poly::{all_wf, values_of};
use crate::kzg::{
    G1Point, JZKZGCommitmentParams, g1_msm, g1_msm_of, g1_mul, g1_scalar_mul_of,
    g1_sum_of, g1_views,
};

verus! {

/// Bit `8i + j` of the result is bit `j` (least significant first) of byte `i`.
pub fn bytes_to_bits(bytes: &Vec<u8>) -> (r: Vec<bool>)
    requires
        bytes.len() * 8 <= usize::MAX,
    ensures
        r.len() == bytes.len() * 8,
        forall|i: int, j: int|
            0 <= i < bytes.len() && 0 <= j < 8 ==> #[trigger] r@[8 * i + j] == ((bytes@[i] >> (j as u8))
                & 1 == 1),
{
    let mut bits: Vec<bool> = Vec::new();
    let mut i: usize = 0;
    while i < bytes.len()
        invariant
            bytes.len() * 8 <= usize::MAX,
            i <= bytes.len(),
            bits.len() == 8 * i,
            forall|a: int, b: int|
                0 <= a < i && 0 <= b < 8 ==> #[trigger] bits@[8 * a + b] == ((bytes@[a] >> (b as u8))
                    & 1 == 1),
        decreases bytes.len() - i,
    {
        let byte = bytes[i];
        let mut j: u8 = 0;
        while j < 8
            invariant
                i < bytes.len(),
                bytes.len() * 8 <= usize::MAX,
                byte == bytes@[i as int],
                j <= 8,
                bits.len() == 8 * i + j,
                forall|a: int, b: int|
                    0 <= a < i && 0 <= b < 8 ==> #[trigger] bits@[8 * a + b] == ((bytes@[a] >> (
                    b as u8)) & 1 == 1),
                forall|b: int| 0 <= b < j ==> #[trigger] bits@[8 * i + b] == ((byte >> (b as u8)) & 1 == 1),
            decreases 8 - j,
        {
            bits.push((byte >> j) & 1 == 1);
            j = j + 1;
        }
        i = i + 1;
    }
    bits
}

/// The bits of `bytes`, least significant first within each byte.
pub open spec fn bits_of(bytes: Seq<u8>) -> Seq<bool> {
    Seq::new(bytes.len() * 8, |k: int| (bytes[k / 8] >> ((k % 8) as u8)) & 1 == 1)
}

/// The integer whose little-endian bits are `bits`.
pub open spec fn bits_value(bits: Seq<bool>) -> int
    decreases bits.len(),
{
    if bits.len() == 0 {
        0
    } else {
        bits_value(bits.drop_last()) + if bits.last() {
            pow2((bits.len() - 1) as nat) as int
        } else {
            0
        }
    }
}

/// The field element that a record field's bytes encode.
pub open spec fn field_value(bytes: Seq<u8>) -> int {
    bits_value(bits_of(bytes))
}

proof fn lemma_bits_value_nonneg(bits: Seq<bool>)
    ensures
        bits_value(bits) >= 0,
    decreases bits.len(),
{
    if bits.len() > 0 {
        lemma_bits_value_nonneg(bits.drop_last());
    }
}

/// The field element whose little-endian bits are `bits`, accumulated with field additions of
/// powers of two.
fn scalar_from_bits(bits: &Vec<bool>) -> (r: Scalar)
    requires
        bits_value(bits@) < modulus(),
    ensures
        r.wf(),
        r.value() == bits_value(bits@),
{
    let mut acc = Scalar::zero();
    let mut pw = Scalar::one();
    let mut i: usize = 0;
    proof {
        lemma_small_mod(1, modulus() as nat);
        lemma_small_mod(0, modulus() as nat);
        lemma2_to64();
        assert(bits@.take(0) =~= Seq::<bool>::empty());
    }
    while i < bits.len()
        invariant
            i <= bits.len(),
            acc.wf(),
            pw.wf(),
            acc.value() == bits_value(bits@.take(i as int)) % modulus(),
            pw.value() == (pow2(i as nat) as int) % modulus(),
        decreases bits.len() - i,
    {
        let ghost bv = bits_value(bits@.take(i as int));
        let ghost pv = pow2(i as nat) as int;
        assert(bits@.take(i + 1).drop_last() =~= bits@.take(i as int));
        assert(bits@.take(i + 1).last() == bits@[i as int]);
        if bits[i] {
            acc = acc.add(&pw);
            proof {
                lemma_add_mod_noop(bv, pv, modulus());
            }
        }
        pw = pw.add(&pw);
        proof {
            lemma_add_mod_noop(pv, pv, modulus());
            lemma_pow2_unfold((i + 1) as nat);
        }
        i = i + 1;
    }
    proof {
        assert(bits@.take(i as int) =~= bits@);
        lemma_bits_value_nonneg(bits@);
        lemma_small_mod(bits_value(bits@) as nat, modulus() as nat);
    }
    acc
}

/// The field element encoded by `bytes`: at most 32 of them, encoding an integer below the
/// modulus.
pub fn field_from_bytes(bytes: &Vec<u8>) -> (r: Scalar)
    requires
        bytes.len() <= 32,
        field_value(bytes@) < modulus(),
    ensures
        r.wf(),
        r.value() == field_value(bytes@),
{
    let bits = bytes_to_bits(bytes);
    assert(bits@ =~= bits_of(bytes@)) by {
        assert forall|k: int| 0 <= k < bits.len() implies bits@[k] == bits_of(bytes@)[k] by {
            lemma_fundamental_div_mod(k, 8);
            assert(k == 8 * (k / 8) + k % 8);
            assert(bits@[8 * (k / 8) + k % 8] == ((bytes@[k / 8] >> ((k % 8) as u8)) & 1 == 1));
        }
    }
    scalar_from_bits(&bits)
}

/// A record: its fields as little-endian byte strings, a blinding value, and the reference
/// string that its commitment uses.
pub struct JZRecord {
    pub crs: JZKZGCommitmentParams,
    pub fields: Vec<Vec<u8>>,
    pub blind: Vec<u8>,
}

impl JZRecord {
    /// Every field and the blind encode field elements in at most 32 bytes, and the reference
    /// string has a Lagrange point for every field.
    pub open spec fn wf(&self) -> bool {
        &&& forall|i: int|
            0 <= i < self.fields.len() ==> (#[trigger] self.fields@[i]).len() <= 32 && field_value(
                self.fields@[i]@,
            ) < modulus()
        &&& self.blind.len() <= 32
        &&& field_value(self.blind@) < modulus()
        &&& self.fields.len() <= self.crs.crs_lagrange.len()
        &&& self.crs.crs_lagrange.len() >= 1
    }

    /// The field elements of the record.
    pub open spec fn field_values(&self) -> Seq<int> {
        self.fields@.map_values(|f: Vec<u8>| field_value(f@))
    }

    pub fn new(crs: &JZKZGCommitmentParams, fields: &Vec<Vec<u8>>, blind: &Vec<u8>) -> (r: JZRecord)
        ensures
            g1_views(r.crs.crs_coefficient_g1@) == g1_views(crs.crs_coefficient_g1@),
            r.crs.crs_coefficient_g2@.len() == crs.crs_coefficient_g2@.len(),
            g1_views(r.crs.crs_lagrange@) == g1_views(crs.crs_lagrange@),
            r.crs.crs_lagrange.len() == crs.crs_lagrange.len(),
            r.fields@.map_values(|f: Vec<u8>| f@) == fields@.map_values(|f: Vec<u8>| f@),
            r.fields.len() == fields.len(),
            r.blind@ == blind@,
    {
        let mut copied: Vec<Vec<u8>> = Vec::new();
        let mut i: usize = 0;
        while i < fields.len()
            invariant
                i <= fields.len(),
                copied.len() == i,
                forall|t: int| 0 <= t < i ==> (#[trigger] copied@[t])@ == fields@[t]@,
            decreases fields.len() - i,
        {
            copied.push(fields[i].clone());
            i = i + 1;
        }
        assert(copied@.map_values(|f: Vec<u8>| f@) =~= fields@.map_values(|f: Vec<u8>| f@));
        JZRecord {
            crs: crs.copy(),
            fields: copied,
            blind: blind.clone(),
        }
    }

    /// The field elements of the record.
    pub fn fields(&self) -> (r: Vec<Scalar>)
        requires
            self.wf(),
        ensures
            r.len() == self.fields.len(),
            all_wf(r@),
            values_of(r@) == self.field_values(),
    {
        let mut r: Vec<Scalar> = Vec::new();
        let mut i: usize = 0;
        while i < self.fields.len()
            invariant
                self.wf(),
                i <= self.fields.len(),
                r.len() == i,
                all_wf(r@),
                forall|t: int| 0 <= t < i ==> #[trigger] r@[t].value() == field_value(self.fields@[t]@),
            decreases self.fields.len() - i,
        {
            assert(self.fields@[i as int].len() <= 32 && field_value(self.fields@[i as int]@) < modulus());
            r.push(field_from_bytes(&self.fields[i]));
            i = i + 1;
        }
        assert(values_of(r@) =~= self.field_values());
        r
    }

    /// The fields, with the blind added to the first one.
    pub fn blinded_fields(&self) -> (r: Vec<Scalar>)
        requires
            self.wf(),
            self.fields.len() >= 1,
        ensures
            all_wf(r@),
            values_of(r@) == self.field_values().update(
                0,
                fadd(self.field_values()[0], field_value(self.blind@)),
            ),
    {
        let mut r = self.fields();
        let blind = field_from_bytes(&self.blind);
        assert(r@[0].wf());
        let first = r[0].add(&blind);
        r.set(0, first);
        assert(values_of(r@) =~= self.field_values().update(
            0,
            fadd(self.field_values()[0], field_value(self.blind@)),
        ));
        r
    }

    /// `Σ_i [field_i] L_i`, with `L_i` the Lagrange points of the reference string: the
    /// commitment to the record polynomial.
    pub fn commitment(&self) -> (r: G1Point)
        requires
            self.wf(),
        ensures
            r@ == g1_msm_of(
                g1_views(self.crs.crs_lagrange@).take(self.fields.len() as int),
                self.field_values(),
            ),
    {
        let values = self.fields();
        let t = self.fields.len();
        let r = g1_msm(&self.crs.crs_lagrange, &values, t);
        assert(g1_views(self.crs.crs_lagrange@.take(t as int)) =~= g1_views(self.crs.crs_lagrange@).take(
            t as int,
        ));
        assert(values@.take(t as int) =~= values@);
        r
    }

    /// The commitment plus `[blind] L_0`.
    pub fn blinded_commitment(&self) -> (r: G1Point)
        requires
            self.wf(),
        ensures
            r@ == g1_sum_of(
                g1_msm_of(
                    g1_views(self.crs.crs_lagrange@).take(self.fields.len() as int),
                    self.field_values(),
                ),
                g1_scalar_mul_of(self.crs.crs_lagrange@[0]@, field_value(self.blind@)),
            ),
    {
        let com = self.commitment();
        let blind = field_from_bytes(&self.blind);
        com.add(&g1_mul(&self.crs.crs_lagrange[0], &blind))
    }
}

} // verus!
