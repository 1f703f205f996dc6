//! Dense polynomials over the field, and the commit / open / verify protocol.
use crate::digest::{blake3_digest, blake3_of};
use crate::field::{
    fr_add, fr_bytes, fr_mul, lemma_bytes_injective, lemma_bytes_len, lemma_modulus_bound, lemma_value_determines_bytes,
    modulus, FieldElement,
};
use vstd::arithmetic::div_mod::{lemma_add_mod_noop, lemma_mul_mod_noop_left, lemma_small_mod};
use vstd::arithmetic::power::pow;
use vstd::prelude::*;

verus! {

/// `cs[0] + cs[1] * x + ... + cs[n - 1] * x^(n - 1)`, summed term by term.
pub open spec fn power_sum(cs: Seq<int>, x: int) -> int
    decreases cs.len(),
{
    if cs.len() == 0 {
        0
    } else {
        power_sum(cs.drop_last(), x) + cs.last() * pow(x, (cs.len() - 1) as nat)
    }
}

/// The same sum in nested form, `cs[0] + x * (cs[1] + x * (...))`.
pub open spec fn horner(cs: Seq<int>, x: int) -> int
    decreases cs.len(),
{
    if cs.len() == 0 {
        0
    } else {
        cs[0] + x * horner(cs.drop_first(), x)
    }
}

/// The value in the field of the polynomial with coefficients `cs`, lowest
/// degree first, at the point `x`.
pub open spec fn evaluation(cs: Seq<int>, x: int) -> int {
    power_sum(cs, x) % modulus()
}

/// The integers that a sequence of field elements stands for.
pub open spec fn values(cs: Seq<FieldElement>) -> Seq<int> {
    cs.map_values(|c: FieldElement| c.value())
}

/// Splitting the term-by-term sum at degree `j`.
proof fn lemma_power_sum_split(cs: Seq<int>, x: int, j: int)
    requires
        0 <= j <= cs.len(),
    ensures
        power_sum(cs, x) == power_sum(cs.subrange(0, j), x) + pow(x, j as nat) * horner(
            cs.subrange(j, cs.len() as int),
            x,
        ),
    decreases cs.len() - j,
{
    let n = cs.len() as int;
    if j == n {
        assert(cs.subrange(0, j) =~= cs);
        assert(horner(cs.subrange(j, n), x) == 0);
    } else {
        lemma_power_sum_split(cs, x, j + 1);
        let pre = cs.subrange(0, j + 1);
        assert(pre.drop_last() =~= cs.subrange(0, j));
        assert(cs.subrange(j, n).drop_first() =~= cs.subrange(j + 1, n));
        let sj = power_sum(cs.subrange(0, j), x);
        let hj = horner(cs.subrange(j + 1, n), x);
        let pj = pow(x, j as nat);
        reveal(pow);
        assert(pow(x, (j + 1) as nat) == x * pj);
        assert(power_sum(pre, x) == sj + cs[j] * pj);
        assert(horner(cs.subrange(j, n), x) == cs[j] + x * hj);
        assert(sj + cs[j] * pj + (x * pj) * hj == sj + pj * (cs[j] + x * hj)) by (nonlinear_arith);
    }
}

/// Nested evaluation and term-by-term summation agree.
pub proof fn lemma_horner_is_power_sum(cs: Seq<int>, x: int)
    ensures
        horner(cs, x) == power_sum(cs, x),
{
    lemma_power_sum_split(cs, x, 0);
    assert(cs.subrange(0, cs.len() as int) =~= cs);
    reveal(pow);
    assert(pow(x, 0) == 1);
    assert(power_sum(cs.subrange(0, 0), x) == 0);
}

/// The coefficients' canonical encodings, concatenated lowest degree first.
pub open spec fn encoding(cs: Seq<FieldElement>) -> Seq<u8>
    decreases cs.len(),
{
    if cs.len() == 0 {
        Seq::empty()
    } else {
        encoding(cs.drop_last()) + cs.last().bytes()
    }
}

/// The commitment to the polynomial with coefficients `cs`.
pub open spec fn commitment_of(cs: Seq<FieldElement>) -> Seq<u8> {
    blake3_of(encoding(cs))
}

/// The opening proof that goes with the claimed value `v`.
pub open spec fn proof_of(v: FieldElement) -> Seq<u8> {
    blake3_of(v.bytes())
}

/// Whether an opening is accepted. Only the pair of value and proof is
/// checked: neither the commitment nor the point takes part, so acceptance
/// does not tie the value to the committed polynomial.
pub open spec fn accepts(
    commitment: Seq<u8>,
    point: FieldElement,
    value: FieldElement,
    proof: Seq<u8>,
) -> bool {
    proof == proof_of(value)
}

/// A commitment to a polynomial: a digest of its coefficients.
#[derive(Clone, Debug, PartialEq, Eq)]
pub struct Commitment(pub Vec<u8>);

impl View for Commitment {
    type V = Seq<u8>;

    open spec fn view(&self) -> Seq<u8> {
        self.0@
    }
}

/// A proof that goes with a claimed value of a polynomial at a point.
#[derive(Clone, Debug, PartialEq, Eq)]
pub struct OpeningProof(pub Vec<u8>);

impl View for OpeningProof {
    type V = Seq<u8>;

    open spec fn view(&self) -> Seq<u8> {
        self.0@
    }
}

/// Whether `proof` holds exactly the bytes of `expected`.
pub fn digest_matches(expected: &Vec<u8>, proof: &OpeningProof) -> (r: bool)
    ensures
        r == (expected@ == proof@),
{
    let a = expected;
    let b = &proof.0;
    if a.len() != b.len() {
        return false;
    }
    let mut i: usize = 0;
    while i < a.len()
        invariant
            a@ == expected@,
            b@ == proof@,
            a.len() == b.len(),
            i <= a.len(),
            forall|j: int| 0 <= j < i ==> a@[j] == b@[j],
        decreases a.len() - i,
    {
        if a[i] != b[i] {
            assert(a@[i as int] != b@[i as int]);
            return false;
        }
        i = i + 1;
    }
    assert(a@ =~= b@);
    true
}

/// Whether `proof` is the opening proof of `value`. The commitment and the
/// point are taken but not consulted: a value and proof that anyone can
/// compute pass, whatever was committed.
pub fn verify(
    commitment: &Commitment,
    point: FieldElement,
    value: FieldElement,
    proof: &OpeningProof,
) -> (r: bool)
    ensures
        r == accepts(commitment@, point, value, proof@),
{
    let expected = blake3_digest(&fr_bytes(value));
    digest_matches(&expected, proof)
}

/// A polynomial, held as its coefficients from the lowest degree up.
pub struct DensePolynomial {
    pub coefficients: Vec<FieldElement>,
}

impl DensePolynomial {
    /// Every coefficient is a canonical field element.
    pub open spec fn wf(&self) -> bool {
        forall|i: int| 0 <= i < self.coefficients@.len() ==> (#[trigger] self.coefficients@[i]).wf()
    }

    /// The coefficients as integers, lowest degree first.
    pub open spec fn coeff_values(&self) -> Seq<int> {
        values(self.coefficients@)
    }

    /// The polynomial with the given coefficients, lowest degree first.
    pub fn new(coefficients: Vec<FieldElement>) -> (r: DensePolynomial)
        ensures
            r.coefficients@ == coefficients@,
    {
        DensePolynomial { coefficients }
    }

    /// The value of the polynomial at `point`, computed by Horner's rule from
    /// the highest coefficient down.
    pub fn evaluate_at(&self, point: FieldElement) -> (r: FieldElement)
        requires
            self.wf(),
            point.wf(),
        ensures
            r.wf(),
            r.value() == evaluation(self.coeff_values(), point.value()),
    {
        let n = self.coefficients.len();
        let ghost vs = self.coeff_values();
        let ghost x = point.value();
        let mut acc = FieldElement::zero();
        let mut i: usize = n;
        proof {
            lemma_modulus_bound();
            assert(horner(vs.subrange(n as int, n as int), x) == 0);
            lemma_small_mod(0, modulus() as nat);
        }
        while i > 0
            invariant
                i <= n,
                n == self.coefficients@.len(),
                vs == self.coeff_values(),
                x == point.value(),
                self.wf(),
                point.wf(),
                acc.wf(),
                acc.value() == horner(vs.subrange(i as int, n as int), x) % modulus(),
            decreases i,
        {
            i = i - 1;
            let c = self.coefficients[i];
            assert(c.wf());
            let t = fr_mul(acc, point);
            acc = fr_add(t, c);
            proof {
                let h = horner(vs.subrange(i + 1, n as int), x);
                assert(vs.subrange(i as int, n as int).drop_first() =~= vs.subrange(i + 1, n as int));
                assert(horner(vs.subrange(i as int, n as int), x) == vs[i as int] + x * h);
                lemma_mul_mod_noop_left(h, x, modulus());
                lemma_small_mod(c.value() as nat, modulus() as nat);
                lemma_add_mod_noop(h * x, c.value(), modulus());
                assert(h * x == x * h) by (nonlinear_arith);
            }
        }
        proof {
            assert(vs.subrange(0, n as int) =~= vs);
            lemma_horner_is_power_sum(vs, x);
        }
        acc
    }

    /// The commitment: the digest of all coefficients' encodings,
    /// concatenated lowest degree first.
    pub fn commit(&self) -> (r: Commitment)
        ensures
            r@ == commitment_of(self.coefficients@),
            r@.len() == 32,
    {
        let n = self.coefficients.len();
        let mut data: Vec<u8> = Vec::new();
        let mut i: usize = 0;
        while i < n
            invariant
                i <= n,
                n == self.coefficients@.len(),
                data@ == encoding(self.coefficients@.subrange(0, i as int)),
            decreases n - i,
        {
            let mut b = fr_bytes(self.coefficients[i]);
            proof {
                let next = self.coefficients@.subrange(0, i + 1);
                assert(next.drop_last() =~= self.coefficients@.subrange(0, i as int));
            }
            data.append(&mut b);
            i = i + 1;
        }
        assert(self.coefficients@.subrange(0, n as int) =~= self.coefficients@);
        Commitment(blake3_digest(&data))
    }

    /// The value at `point`, with the proof that goes with it: the digest
    /// of the value's encoding.
    pub fn open(&self, point: FieldElement) -> (r: (FieldElement, OpeningProof))
        requires
            self.wf(),
            point.wf(),
        ensures
            r.0.wf(),
            r.0.value() == evaluation(self.coeff_values(), point.value()),
            r.1@ == proof_of(r.0),
            r.1@.len() == 32,
    {
        let value = self.evaluate_at(point);
        let proof = OpeningProof(blake3_digest(&fr_bytes(value)));
        (value, proof)
    }
}

/// Each coefficient takes 32 bytes of the encoding.
pub proof fn lemma_encoding_len(cs: Seq<FieldElement>)
    ensures
        encoding(cs).len() == 32 * cs.len(),
    decreases cs.len(),
{
    if cs.len() > 0 {
        lemma_encoding_len(cs.drop_last());
        lemma_bytes_len(cs.last());
    }
}

/// Coefficients with equal values have equal encodings.
pub proof fn lemma_encoding_of_equal_values(a: Seq<FieldElement>, b: Seq<FieldElement>)
    requires
        values(a) == values(b),
    ensures
        encoding(a) == encoding(b),
    decreases a.len(),
{
    assert(values(a).len() == a.len() && values(b).len() == b.len());
    if a.len() > 0 {
        assert(values(a.drop_last()) =~= values(a).drop_last());
        assert(values(b.drop_last()) =~= values(b).drop_last());
        lemma_encoding_of_equal_values(a.drop_last(), b.drop_last());
        assert(values(a)[a.len() - 1] == values(b)[b.len() - 1]);
        lemma_value_determines_bytes(a.last(), b.last());
    }
}

/// Equal encodings come from coefficients with equal values, including equal
/// lengths: the encoding keeps trailing zero coefficients apart.
pub proof fn lemma_encoding_injective(a: Seq<FieldElement>, b: Seq<FieldElement>)
    requires
        encoding(a) == encoding(b),
    ensures
        values(a) == values(b),
    decreases a.len(),
{
    lemma_encoding_len(a);
    lemma_encoding_len(b);
    assert(a.len() == b.len());
    if a.len() > 0 {
        let n = a.len() as int;
        let ea = encoding(a.drop_last());
        let eb = encoding(b.drop_last());
        lemma_encoding_len(a.drop_last());
        lemma_encoding_len(b.drop_last());
        let e = encoding(a);
        assert(ea =~= e.subrange(0, 32 * (n - 1)));
        assert(eb =~= e.subrange(0, 32 * (n - 1)));
        assert(a.last().bytes() =~= e.subrange(32 * (n - 1), 32 * n));
        assert(b.last().bytes() =~= e.subrange(32 * (n - 1), 32 * n));
        lemma_encoding_injective(a.drop_last(), b.drop_last());
        lemma_bytes_injective(a.last(), b.last());
        assert forall|i: int| 0 <= i < n implies values(a)[i] == values(b)[i] by {
            if i < n - 1 {
                assert(values(a.drop_last())[i] == values(b.drop_last())[i]);
            }
        }
        assert(values(a) =~= values(b));
    } else {
        assert(values(a) =~= values(b));
    }
}

/// Committing depends only on the coefficients' values: polynomials with
/// equal coefficient sequences get equal commitments.
pub proof fn lemma_commit_deterministic(p: DensePolynomial, q: DensePolynomial)
    requires
        p.coeff_values() == q.coeff_values(),
    ensures
        commitment_of(p.coefficients@) == commitment_of(q.coefficients@),
{
    lemma_encoding_of_equal_values(p.coefficients@, q.coefficients@);
}

/// Polynomials whose coefficient sequences differ, in a value or only in
/// length, hand the hash different inputs; distinct commitments then rest
/// on the hash being collision resistant.
pub proof fn lemma_distinct_polynomials_hash_distinct_inputs(p: DensePolynomial, q: DensePolynomial)
    requires
        p.coeff_values() != q.coeff_values(),
    ensures
        encoding(p.coefficients@) != encoding(q.coefficients@),
{
    if encoding(p.coefficients@) == encoding(q.coefficients@) {
        lemma_encoding_injective(p.coefficients@, q.coefficients@);
    }
}

/// An honest opening is accepted: the value and proof that `open` gives for
/// a polynomial and a point pass `verify` against its commitment.
pub proof fn lemma_opening_verifies(
    p: DensePolynomial,
    point: FieldElement,
    value: FieldElement,
    proof: Seq<u8>,
)
    requires
        p.wf(),
        point.wf(),
        value.wf(),
        value.value() == evaluation(p.coeff_values(), point.value()),
        proof == proof_of(value),
    ensures
        accepts(commitment_of(p.coefficients@), point, value, proof),
{
}

/// A tampered proof is refused: any proof other than the one `open` gives
/// for the value fails `verify` against the polynomial's commitment.
pub proof fn lemma_tampered_proof_rejected(
    p: DensePolynomial,
    point: FieldElement,
    value: FieldElement,
    proof: Seq<u8>,
    tampered: Seq<u8>,
)
    requires
        p.wf(),
        point.wf(),
        value.wf(),
        value.value() == evaluation(p.coeff_values(), point.value()),
        proof == proof_of(value),
        tampered != proof,
    ensures
        !accepts(commitment_of(p.coefficients@), point, value, tampered),
{
}

/// The zero polynomial, with no coefficients or only zero ones, is zero at
/// every point.
pub proof fn lemma_zero_polynomial(p: DensePolynomial, point: FieldElement)
    requires
        forall|i: int| 0 <= i < p.coeff_values().len() ==> p.coeff_values()[i] == 0,
    ensures
        evaluation(p.coeff_values(), point.value()) == 0,
{
    lemma_power_sum_of_zeros(p.coeff_values(), point.value());
    lemma_modulus_bound();
    lemma_small_mod(0, modulus() as nat);
}

/// A sum of zero terms is zero.
proof fn lemma_power_sum_of_zeros(cs: Seq<int>, x: int)
    requires
        forall|i: int| 0 <= i < cs.len() ==> cs[i] == 0,
    ensures
        power_sum(cs, x) == 0,
    decreases cs.len(),
{
    if cs.len() > 0 {
        lemma_power_sum_of_zeros(cs.drop_last(), x);
        assert(cs.last() == 0);
        assert(cs.last() * pow(x, (cs.len() - 1) as nat) == 0);
    }
}

} // verus!
