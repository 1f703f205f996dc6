//! Elements of the BLS12-381 scalar field, held as their canonical
//! representative in four little-endian 64-bit limbs.
use ark_ff::{BigInt, BigInteger, PrimeField};
use ark_test_curves::bls12_381::Fr;
use vstd::arithmetic::div_mod::lemma_fundamental_div_mod_converse;
use vstd::prelude::*;

verus! {

/// 2^64, the weight of one limb.
pub open spec fn limb_base() -> int {
    0x1_0000_0000_0000_0000
}

/// The integer that four little-endian 64-bit limbs spell.
pub open spec fn limbs_value(l: [u64; 4]) -> int {
    l[0] as int + limb_base() * (l[1] as int + limb_base() * (l[2] as int + limb_base() * l[3] as int))
}

/// The prime order of the field,
/// 52435875175126190479447740508185965837690552500527637822603658699938581184513,
/// from its four limbs.
pub open spec fn modulus() -> int {
    limbs_value([
        0xffff_ffff_0000_0001u64,
        0x53bd_a402_fffe_5bfeu64,
        0x3339_d808_09a1_d805u64,
        0x73ed_a753_299d_7d48u64,
    ])
}

/// The modulus exceeds every 64-bit integer.
pub proof fn lemma_modulus_bound()
    ensures
        limb_base() < modulus(),
{
}

/// A field element, kept as the four limbs of its canonical representative.
#[derive(Clone, Copy, Debug, PartialEq, Eq)]
pub struct FieldElement {
    limbs: [u64; 4],
}

impl FieldElement {
    /// The integer this element stands for.
    pub closed spec fn value(self) -> int {
        limbs_value(self.limbs)
    }

    /// The canonical representative lies below the modulus.
    pub open spec fn wf(self) -> bool {
        0 <= self.value() < modulus()
    }

    /// The canonical byte encoding: the representative in 32 bytes,
    /// least significant byte first.
    pub closed spec fn bytes(self) -> Seq<u8> {
        Seq::new(32, |k: int| byte_of(self.limbs@[k / 8], k % 8))
    }

    /// The additive identity.
    pub fn zero() -> (r: FieldElement)
        ensures
            r.wf(),
            r.value() == 0,
    {
        FieldElement { limbs: [0u64, 0u64, 0u64, 0u64] }
    }

    /// The element that a machine integer stands for.
    pub fn from_u64(n: u64) -> (r: FieldElement)
        ensures
            r.wf(),
            r.value() == n,
    {
        FieldElement { limbs: [n, 0u64, 0u64, 0u64] }
    }

    /// The element whose canonical representative the four limbs spell, or
    /// `None` where that integer is not below the modulus.
    pub fn from_limbs(limbs: [u64; 4]) -> (r: Option<FieldElement>)
        ensures
            r is Some <==> limbs_value(limbs) < modulus(),
            r matches Some(e) ==> e.wf() && e.value() == limbs_value(limbs),
    {
        fr_from_limbs(limbs)
    }

    /// The element whose canonical encoding is `bytes`, or `None` where
    /// `bytes` is not 32 long or spells an integer not below the modulus.
    pub fn from_bytes_le(bytes: &Vec<u8>) -> (r: Option<FieldElement>)
        ensures
            r is Some <==> (bytes@.len() == 32 && exists|e: FieldElement| e.wf() && e.bytes() == bytes@),
            r matches Some(e) ==> e.wf() && e.bytes() == bytes@,
    {
        if bytes.len() != 32 {
            return None;
        }
        let limbs = [le_word(bytes, 0), le_word(bytes, 8), le_word(bytes, 16), le_word(bytes, 24)];
        let ghost spelled = FieldElement { limbs };
        proof {
            assert forall|k: int| 0 <= k < 32 implies spelled.bytes()[k] == bytes@[k] by {
                assert(k == 8 * (k / 8) + k % 8);
            }
            assert(spelled.bytes() =~= bytes@);
        }
        let r = fr_from_limbs(limbs);
        proof {
            if let Some(e) = r {
                lemma_value_determines_bytes(e, spelled);
            } else {
                assert forall|e: FieldElement| e.bytes() == bytes@ implies !e.wf() by {
                    lemma_bytes_injective(e, spelled);
                }
            }
        }
        r
    }

    /// The four limbs of the canonical representative.
    pub fn limbs(&self) -> (r: [u64; 4])
        ensures
            limbs_value(r) == self.value(),
    {
        self.limbs
    }
}

/// Relies on ark-ff's `PrimeField::from_bigint` for `Fr`, which refuses an
/// integer not below the modulus, and on `into_bigint`, which gives back the
/// canonical representative.
#[verifier::external_body]
fn fr_from_limbs(limbs: [u64; 4]) -> (r: Option<FieldElement>)
    ensures
        r is Some <==> limbs_value(limbs) < modulus(),
        r matches Some(e) ==> e.value() == limbs_value(limbs),
{
    match Fr::from_bigint(BigInt::new(limbs)) {
        Some(f) => Some(FieldElement { limbs: f.into_bigint().0 }),
        None => None,
    }
}

/// Relies on ark-ff's `Add` for `Fr`: the sum reduced modulo the field's
/// order. `Fr::from` on a `BigInt` panics only on an integer not below the
/// modulus, which `requires` leaves out.
#[verifier::external_body]
pub(crate) fn fr_add(a: FieldElement, b: FieldElement) -> (r: FieldElement)
    requires
        a.wf(),
        b.wf(),
    ensures
        r.wf(),
        r.value() == (a.value() + b.value()) % modulus(),
{
    let s = Fr::from(BigInt::new(a.limbs)) + Fr::from(BigInt::new(b.limbs));
    FieldElement { limbs: s.into_bigint().0 }
}

/// Relies on ark-ff's `Mul` for `Fr`: the product reduced modulo the field's
/// order. `Fr::from` on a `BigInt` panics only on an integer not below the
/// modulus, which `requires` leaves out.
#[verifier::external_body]
pub(crate) fn fr_mul(a: FieldElement, b: FieldElement) -> (r: FieldElement)
    requires
        a.wf(),
        b.wf(),
    ensures
        r.wf(),
        r.value() == (a.value() * b.value()) % modulus(),
{
    let p = Fr::from(BigInt::new(a.limbs)) * Fr::from(BigInt::new(b.limbs));
    FieldElement { limbs: p.into_bigint().0 }
}

/// Relies on ark-ff's `BigInteger::to_bytes_le`: each limb in turn, least
/// significant byte first.
#[verifier::external_body]
pub(crate) fn fr_bytes(a: FieldElement) -> (r: Vec<u8>)
    ensures
        r@ == a.bytes(),
{
    BigInt::new(a.limbs).to_bytes_le()
}

/// Byte `j` of a 64-bit word, least significant first.
pub open spec fn byte_of(w: u64, j: int) -> u8 {
    (w >> ((8 * j) as u64)) as u8
}

/// A 64-bit word is fixed by its eight bytes.
proof fn lemma_u64_from_bytes(x: u64, y: u64)
    requires
        forall|j: int| 0 <= j < 8 ==> byte_of(x, j) == byte_of(y, j),
    ensures
        x == y,
{
    assert(byte_of(x, 0) == byte_of(y, 0));
    assert(byte_of(x, 1) == byte_of(y, 1));
    assert(byte_of(x, 2) == byte_of(y, 2));
    assert(byte_of(x, 3) == byte_of(y, 3));
    assert(byte_of(x, 4) == byte_of(y, 4));
    assert(byte_of(x, 5) == byte_of(y, 5));
    assert(byte_of(x, 6) == byte_of(y, 6));
    assert(byte_of(x, 7) == byte_of(y, 7));
    assert(x == y) by (bit_vector)
        requires
            (x >> 0u64) as u8 == (y >> 0u64) as u8,
            (x >> 8u64) as u8 == (y >> 8u64) as u8,
            (x >> 16u64) as u8 == (y >> 16u64) as u8,
            (x >> 24u64) as u8 == (y >> 24u64) as u8,
            (x >> 32u64) as u8 == (y >> 32u64) as u8,
            (x >> 40u64) as u8 == (y >> 40u64) as u8,
            (x >> 48u64) as u8 == (y >> 48u64) as u8,
            (x >> 56u64) as u8 == (y >> 56u64) as u8,
    ;
}

/// Equal encodings come from equal elements.
pub proof fn lemma_bytes_injective(a: FieldElement, b: FieldElement)
    requires
        a.bytes() == b.bytes(),
    ensures
        a.value() == b.value(),
{
    assert forall|i: int| 0 <= i < 4 implies a.limbs@[i] == b.limbs@[i] by {
        assert forall|j: int| 0 <= j < 8 implies byte_of(a.limbs@[i], j) == byte_of(
            b.limbs@[i],
            j,
        ) by {
            assert((8 * i + j) / 8 == i && (8 * i + j) % 8 == j);
            let k = 8 * i + j;
            assert(a.bytes()[k] == byte_of(a.limbs@[k / 8], k % 8));
            assert(b.bytes()[k] == byte_of(b.limbs@[k / 8], k % 8));
            assert(a.bytes()[k] == b.bytes()[k]);
        }
        lemma_u64_from_bytes(a.limbs@[i], b.limbs@[i]);
    }
}

/// An element's value fixes its limbs, and so its encoding.
pub proof fn lemma_value_determines_bytes(a: FieldElement, b: FieldElement)
    requires
        a.value() == b.value(),
    ensures
        a.bytes() == b.bytes(),
{
    let base = limb_base();
    let (a0, a1, a2, a3) = (a.limbs@[0] as int, a.limbs@[1] as int, a.limbs@[2] as int, a.limbs@[3] as int);
    let (b0, b1, b2, b3) = (b.limbs@[0] as int, b.limbs@[1] as int, b.limbs@[2] as int, b.limbs@[3] as int);
    let ra = a1 + base * (a2 + base * a3);
    let rb = b1 + base * (b2 + base * b3);
    lemma_fundamental_div_mod_converse(a.value(), base, ra, a0);
    lemma_fundamental_div_mod_converse(b.value(), base, rb, b0);
    let sa = a2 + base * a3;
    let sb = b2 + base * b3;
    lemma_fundamental_div_mod_converse(ra, base, sa, a1);
    lemma_fundamental_div_mod_converse(rb, base, sb, b1);
    lemma_fundamental_div_mod_converse(sa, base, a3, a2);
    lemma_fundamental_div_mod_converse(sb, base, b3, b2);
    assert(a.limbs@ =~= b.limbs@);
    assert(a.bytes() =~= b.bytes());
}

/// Every encoding is 32 bytes long.
pub proof fn lemma_bytes_len(a: FieldElement)
    ensures
        a.bytes().len() == 32,
{
}

/// The 64-bit word whose bytes, least significant first, are
/// `bytes[start..start + 8]`.
fn le_word(bytes: &Vec<u8>, start: usize) -> (w: u64)
    requires
        start <= 24,
        bytes@.len() == 32,
    ensures
        forall|j: int| 0 <= j < 8 ==> byte_of(w, j) == bytes@[start + j],
{
    let b0 = bytes[start] as u64;
    let b1 = bytes[start + 1] as u64;
    let b2 = bytes[start + 2] as u64;
    let b3 = bytes[start + 3] as u64;
    let b4 = bytes[start + 4] as u64;
    let b5 = bytes[start + 5] as u64;
    let b6 = bytes[start + 6] as u64;
    let b7 = bytes[start + 7] as u64;
    let w = b0 | (b1 << 8u64) | (b2 << 16u64) | (b3 << 24u64) | (b4 << 32u64) | (b5 << 40u64) | (
    b6 << 48u64) | (b7 << 56u64);
    proof {
        assert(byte_of(w, 0) == b0 as u8 && byte_of(w, 1) == b1 as u8 && byte_of(w, 2) == b2 as u8
            && byte_of(w, 3) == b3 as u8 && byte_of(w, 4) == b4 as u8 && byte_of(w, 5) == b5 as u8
            && byte_of(w, 6) == b6 as u8 && byte_of(w, 7) == b7 as u8) by {
            assert((w >> 0u64) as u8 == b0 as u8 && (w >> 8u64) as u8 == b1 as u8 && (w >> 16u64) as u8
                == b2 as u8 && (w >> 24u64) as u8 == b3 as u8 && (w >> 32u64) as u8 == b4 as u8 && (w
                >> 40u64) as u8 == b5 as u8 && (w >> 48u64) as u8 == b6 as u8 && (w >> 56u64) as u8
                == b7 as u8) by (bit_vector)
                requires
                    b0 < 256 && b1 < 256 && b2 < 256 && b3 < 256 && b4 < 256 && b5 < 256 && b6 < 256
                        && b7 < 256,
                    w == b0 | (b1 << 8u64) | (b2 << 16u64) | (b3 << 24u64) | (b4 << 32u64) | (b5
                        << 40u64) | (b6 << 48u64) | (b7 << 56u64),
            ;
        }
    }
    w
}

} // verus!
