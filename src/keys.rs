use crate::merkle_hellman_knapsack::BLOCK_BITS;
use crate::primes::{
    has_no_factor, invertible, is_inverse, is_prime, lemma_inverse_exists, lemma_prime_coprime,
    mod_inverse, prime,
};
use vstd::arithmetic::div_mod::{lemma_fundamental_div_mod, lemma_fundamental_div_mod_converse_mod};
use vstd::arithmetic::power2::{
    lemma2_to64, lemma_pow2_strictly_increases, lemma_pow2_unfold, pow2,
};
use vstd::prelude::*;

verus! {

/// Smallest prime that exceeds every sum a generated private key can have.
pub const MODULUS_CEILING: u32 = 2297;

/// Sum of the elements of `s`.
pub open spec fn sum_of(s: Seq<u32>) -> int
    decreases s.len(),
{
    if s.len() == 0 {
        0
    } else {
        sum_of(s.drop_last()) + s.last()
    }
}

/// Each element strictly exceeds the sum of all the elements before it.
pub open spec fn superincreasing(s: Seq<u32>) -> bool {
    forall|i: int| 0 <= i < s.len() ==> #[trigger] s[i] > sum_of(s.take(i))
}

/// `s` is built from `start` and `increments`: its first element is `start`,
/// and element `i + 1` is the sum of the elements before it plus `increments[i]`.
pub open spec fn built_from(s: Seq<u32>, start: u32, increments: Seq<u32>) -> bool {
    &&& s.len() == increments.len() + 1
    &&& s[0] == start
    &&& forall|i: int|
        0 <= i < increments.len() ==> #[trigger] s[i + 1] == sum_of(s.take(i + 1))
            + increments[i]
}

/// The least prime that is at least `m`.
pub open spec fn least_prime_from(n: nat, m: nat) -> bool {
    &&& prime(n)
    &&& m <= n
    &&& forall|k: nat| m <= k < n ==> !#[trigger] prime(k)
}

/// The public key is the private key multiplied by `a` modulo `n`, element by element.
pub open spec fn public_key_of(private_key: Seq<u32>, a: nat, n: nat, public_key: Seq<u32>) -> bool {
    &&& public_key.len() == private_key.len()
    &&& forall|i: int|
        0 <= i < private_key.len() ==> #[trigger] public_key[i] as int == ((private_key[i] as int)
            * (a as int)) % (n as int)
}

/// Key material as key generation produces it.
pub open spec fn valid_keys(private_key: Seq<u32>, a: nat, n: nat, public_key: Seq<u32>) -> bool {
    &&& private_key.len() >= 1
    &&& superincreasing(private_key)
    &&& sum_of(private_key) < n
    &&& least_prime_from(n, (sum_of(private_key) + 1) as nat)
    &&& n <= MODULUS_CEILING
    &&& 2 <= a < 1000
    &&& invertible(a, n)
    &&& public_key_of(private_key, a, n, public_key)
}

/// A private key, the multiplier `a`, the prime modulus `n`, and the public key.
#[derive(Debug)]
pub struct KeyPair {
    private_key: Vec<u32>,
    a: u32,
    n: u32,
    public_key: Vec<u32>,
}

impl KeyPair {
    /// The private key.
    pub closed spec fn spec_private_key(&self) -> Seq<u32> {
        self.private_key@
    }

    /// The multiplier.
    pub closed spec fn spec_a(&self) -> nat {
        self.a as nat
    }

    /// The modulus.
    pub closed spec fn spec_n(&self) -> nat {
        self.n as nat
    }

    /// The public key.
    pub closed spec fn spec_public_key(&self) -> Seq<u32> {
        self.public_key@
    }

    /// The four parts fit together as key generation makes them.
    pub open spec fn wf(&self) -> bool {
        valid_keys(self.spec_private_key(), self.spec_a(), self.spec_n(), self.spec_public_key())
    }

    /// Generates a fresh key pair whose keys have `length` elements.
    pub fn new(length: usize) -> (r: Self)
        requires
            1 <= length <= BLOCK_BITS,
        ensures
            r.wf(),
            r.spec_private_key().len() == length,
    {
        let (private_key, a, n) = generate_private_key(length);
        let public_key = generate_public_key(&private_key, a, n);
        Self { private_key, a, n, public_key }
    }

    /// Get a reference to the key pair's private key.
    pub fn private_key(&self) -> (r: &[u32])
        ensures
            r@ == self.spec_private_key(),
    {
        self.private_key.as_slice()
    }

    /// Get the key pair's a.
    pub fn a(&self) -> (r: u32)
        ensures
            r as nat == self.spec_a(),
    {
        self.a
    }

    /// Get the key pair's n.
    pub fn n(&self) -> (r: u32)
        ensures
            r as nat == self.spec_n(),
    {
        self.n
    }

    /// Get a reference to the key pair's public key.
    pub fn public_key(&self) -> (r: &[u32])
        ensures
            r@ == self.spec_public_key(),
    {
        self.public_key.as_slice()
    }
}

/// Relies on `rand::thread_rng` and `rand::Rng::gen_range`: a value drawn
/// uniformly from `[low, high)`; `gen_range` panics on an empty range.
#[verifier::external_body]
fn random_in(low: u32, high: u32) -> (r: u32)
    requires
        low < high,
    ensures
        low <= r < high,
{
    rand::Rng::gen_range(&mut rand::thread_rng(), low..high)
}

/// Reports whether each element strictly exceeds the sum of all before it.
pub fn is_superincreasing(sequence: &[u32]) -> (r: bool)
    ensures
        r == superincreasing(sequence@),
{
    let mut sum: u64 = 0;
    let mut i: usize = 0;
    while i < sequence.len()
        invariant
            i <= sequence@.len(),
            sum as int == sum_of(sequence@.take(i as int)),
            sum <= 2 * 0xFFFF_FFFFu64,
            forall|j: int| 0 <= j < i ==> #[trigger] sequence@[j] > sum_of(sequence@.take(j)),
        decreases sequence@.len() - i,
    {
        let x = sequence[i];
        if (x as u64) <= sum {
            assert(!(sequence@[i as int] > sum_of(sequence@.take(i as int))));
            return false;
        }
        proof {
            let next = sequence@.take(i + 1);
            assert(next.drop_last() =~= sequence@.take(i as int));
            assert(next.last() == x);
            assert(sum_of(next) == sum_of(next.drop_last()) + next.last());
        }
        sum = sum + x as u64;
        i = i + 1;
    }
    true
}

/// The superincreasing sequence that starts with `start` and whose later
/// elements each exceed the sum before them by the matching increment.
pub fn superincreasing_from_draws(start: u32, increments: &[u32]) -> (r: Vec<u32>)
    requires
        2 <= start < 10,
        increments@.len() < BLOCK_BITS,
        forall|i: int| 0 <= i < increments@.len() ==> 1 <= #[trigger] increments@[i] < 10,
    ensures
        built_from(r@, start, increments@),
        superincreasing(r@),
        sum_of(r@) <= 9 * (pow2(r@.len()) - 1),
{
    let mut sequence: Vec<u32> = Vec::new();
    sequence.push(start);
    let mut sum: u32 = start;
    let mut i: usize = 0;
    proof {
        lemma2_to64();
        assert(sequence@.drop_last() =~= Seq::<u32>::empty());
        assert(sequence@.take(0) =~= Seq::<u32>::empty());
        assert(sum_of(sequence@.drop_last()) == 0);
    }
    while i < increments.len()
        invariant
            i <= increments@.len() < BLOCK_BITS,
            forall|j: int| 0 <= j < increments@.len() ==> 1 <= #[trigger] increments@[j] < 10,
            sequence@.len() == i + 1,
            sequence@[0] == start,
            forall|j: int|
                0 <= j < i ==> #[trigger] sequence@[j + 1] == sum_of(sequence@.take(j + 1))
                    + increments@[j],
            superincreasing(sequence@),
            sum as int == sum_of(sequence@),
            sum <= 9 * (pow2(i as nat + 1) - 1),
        decreases increments@.len() - i,
    {
        proof {
            lemma2_to64();
            if i + 1 < 7 {
                lemma_pow2_strictly_increases(i as nat + 1, 7);
            }
            lemma_pow2_unfold(i as nat + 2);
        }
        let element = sum + increments[i];
        let ghost before = sequence@;
        sequence.push(element);
        proof {
            lemma2_to64();
            assert(sequence@.drop_last() =~= before);
            assert(sequence@.take(i + 1) =~= before);
            assert forall|j: int| 0 <= j < sequence@.len() implies #[trigger] sequence@[j]
                > sum_of(sequence@.take(j)) by {
                if j < before.len() {
                    assert(sequence@.take(j) =~= before.take(j));
                }
            }
            assert forall|j: int| 0 <= j < i + 1 implies #[trigger] sequence@[j + 1] == sum_of(
                sequence@.take(j + 1),
            ) + increments@[j] by {
                if j < i {
                    assert(sequence@.take(j + 1) =~= before.take(j + 1));
                }
            }
        }
        sum = sum + element;
        i = i + 1;
    }
    sequence
}

/// Draws a superincreasing sequence of `length` elements: the first from
/// `[2, 10)`, and each later one the running sum plus a draw from `[1, 10)`.
pub fn generate_superincreasing_sequence(length: usize) -> (r: Vec<u32>)
    requires
        1 <= length <= BLOCK_BITS,
    ensures
        r@.len() == length,
        superincreasing(r@),
        2 <= r@[0] < 10,
        forall|i: int|
            1 <= i < r@.len() ==> 1 <= #[trigger] r@[i] - sum_of(r@.take(i)) < 10,
        sum_of(r@) <= 9 * (pow2(length as nat) - 1),
{
    let start = random_in(2, 10);
    let mut increments: Vec<u32> = Vec::new();
    let mut i: usize = 1;
    while i < length
        invariant
            1 <= i <= length <= BLOCK_BITS,
            increments@.len() == i - 1,
            forall|j: int| 0 <= j < increments@.len() ==> 1 <= #[trigger] increments@[j] < 10,
        decreases length - i,
    {
        increments.push(random_in(1, 10));
        i = i + 1;
    }
    let r = superincreasing_from_draws(start, &increments);
    proof {
        assert forall|i: int| 1 <= i < r@.len() implies 1 <= #[trigger] r@[i] - sum_of(
            r@.take(i),
        ) < 10 by {
            assert(r@[(i - 1) + 1] == sum_of(r@.take((i - 1) + 1)) + increments@[i - 1]);
        }
    }
    r
}

/// Sum of the elements of `s`, which must fit in `u32`.
fn sequence_sum(s: &Vec<u32>) -> (r: u32)
    requires
        sum_of(s@) <= u32::MAX,
        superincreasing(s@),
    ensures
        r as int == sum_of(s@),
{
    let mut sum: u64 = 0;
    let mut i: usize = 0;
    while i < s.len()
        invariant
            i <= s@.len(),
            superincreasing(s@),
            sum as int == sum_of(s@.take(i as int)),
            sum <= 2 * 0xFFFF_FFFFu64,
        decreases s@.len() - i,
    {
        proof {
            assert(s@.take(i + 1).drop_last() =~= s@.take(i as int));
            assert(s@[i as int] > sum_of(s@.take(i as int)));
        }
        sum = sum + s[i] as u64;
        i = i + 1;
    }
    proof {
        assert(s@.take(i as int) =~= s@);
    }
    sum as u32
}

/// The least prime that is at least `m`.
fn modulus_for(m: u32) -> (n: u32)
    requires
        2 <= m <= MODULUS_CEILING,
    ensures
        least_prime_from(n as nat, m as nat),
        n <= MODULUS_CEILING,
{
    assert(forall|d: u32| 2 <= d < 2297 ==> #[trigger] (2297u32 % d) != 0) by (bit_vector);
    assert(has_no_factor(2297)) by {
        assert forall|d: nat| 2 <= d < 2297 implies #[trigger] (2297nat % d) != 0 by {
            assert((2297u32 % (d as u32)) != 0);
        }
    }
    let mut n: u32 = m;
    while !is_prime(n)
        invariant
            2 <= m <= n <= MODULUS_CEILING,
            prime(MODULUS_CEILING as nat),
            forall|k: nat| m <= k < n ==> !#[trigger] prime(k),
        decreases MODULUS_CEILING - n,
    {
        n = n + 1;
    }
    n
}

/// The multiplier made from a draw in `[2, 1000)` for the prime modulus `n`:
/// the draw itself, or, when `n` divides it (it would have no inverse), the
/// number just below it.
pub fn multiplier_from_draw(draw: u32, n: u32) -> (r: u32)
    requires
        2 <= draw < 1000,
        prime(n as nat),
        n >= 3,
    ensures
        r == if draw % n == 0 {
            (draw - 1) as u32
        } else {
            draw
        },
        2 <= r < 1000,
        r % n != 0,
        invertible(r as nat, n as nat),
{
    let mut a = draw;
    if a % n == 0 {
        proof {
            lemma_fundamental_div_mod(a as int, n as int);
            let q = (a as int) / (n as int);
            assert(q >= 1) by (nonlinear_arith)
                requires
                    a as int == (n as int) * q,
                    a >= 2,
                    n >= 2,
            ;
            assert(a >= n) by (nonlinear_arith)
                requires
                    a as int == (n as int) * q,
                    q >= 1,
                    n >= 2,
            ;
            assert((q - 1) * (n as int) + (n as int - 1) == a as int - 1) by (nonlinear_arith)
                requires
                    a as int == (n as int) * q,
            ;
            lemma_fundamental_div_mod_converse_mod(
                a as int - 1,
                n as int,
                q - 1,
                n as int - 1,
            );
        }
        a = a - 1;
    }
    proof {
        lemma_prime_coprime(a as nat, n as nat);
    }
    a
}

/// Draws a private key of `length` elements, takes as modulus the least
/// prime greater than its sum, and makes the multiplier from a draw in
/// `[2, 1000)` (see `multiplier_from_draw`).
pub fn generate_private_key(length: usize) -> (r: (Vec<u32>, u32, u32))
    requires
        1 <= length <= BLOCK_BITS,
    ensures
        r.0@.len() == length,
        superincreasing(r.0@),
        sum_of(r.0@) < r.2,
        least_prime_from(r.2 as nat, (sum_of(r.0@) + 1) as nat),
        r.2 <= MODULUS_CEILING,
        2 <= r.1 < 1000,
        invertible(r.1 as nat, r.2 as nat),
{
    let sequence = generate_superincreasing_sequence(length);
    proof {
        lemma2_to64();
        assert(pow2(length as nat) <= 256) by {
            if length < 8 {
                lemma_pow2_strictly_increases(length as nat, 8);
            }
        }
        assert(sequence@.take(0) =~= Seq::<u32>::empty());
        lemma_sum_at_least_first(sequence@);
    }
    let sum = sequence_sum(&sequence);
    let n = modulus_for(sum + 1);
    let a = multiplier_from_draw(random_in(2, 1000), n);
    (sequence, a, n)
}

/// A nonempty sequence sums to at least its first element.
proof fn lemma_sum_at_least_first(s: Seq<u32>)
    requires
        s.len() >= 1,
    ensures
        sum_of(s) >= s[0],
    decreases s.len(),
{
    if s.len() > 1 {
        lemma_sum_at_least_first(s.drop_last());
        assert(s.drop_last()[0] == s[0]);
    } else {
        assert(sum_of(s.drop_last()) == 0);
    }
}

/// Multiplies each private-key element by `a` modulo `n`.
pub fn generate_public_key(private_key: &[u32], a: u32, n: u32) -> (r: Vec<u32>)
    requires
        superincreasing(private_key@),
        n >= 1,
    ensures
        public_key_of(private_key@, a as nat, n as nat, r@),
{
    let mut public_key: Vec<u32> = Vec::new();
    let mut i: usize = 0;
    while i < private_key.len()
        invariant
            i <= private_key@.len(),
            n >= 1,
            public_key@.len() == i,
            forall|j: int|
                0 <= j < i ==> #[trigger] public_key@[j] as int == ((private_key@[j] as int) * (
                a as int)) % (n as int),
        decreases private_key@.len() - i,
    {
        let x = private_key[i];
        assert((x as int) * (a as int) <= 0xFFFF_FFFF * 0xFFFF_FFFF) by (nonlinear_arith)
            requires
                x <= 0xFFFF_FFFF,
                a <= 0xFFFF_FFFF,
        ;
        let value: u64 = (x as u64 * a as u64) % (n as u64);
        public_key.push(value as u32);
        i = i + 1;
    }
    public_key
}

/// Generates a key pair of `length` elements: private key, multiplier,
/// modulus and public key.
pub fn generate_keys(length: usize) -> (r: (Vec<u32>, u32, u32, Vec<u32>))
    requires
        1 <= length <= BLOCK_BITS,
    ensures
        r.0@.len() == length,
        valid_keys(r.0@, r.1 as nat, r.2 as nat, r.3@),
{
    let (private_key, a, n) = generate_private_key(length);
    let public_key = generate_public_key(&private_key, a, n);
    (private_key, a, n, public_key)
}

/// Every generated private key is superincreasing: each element strictly
/// exceeds the sum of all the elements before it.
pub proof fn lemma_private_key_superincreasing(k: &KeyPair)
    requires
        k.wf(),
    ensures
        forall|i: int|
            0 <= i < k.spec_private_key().len() ==> #[trigger] k.spec_private_key()[i] > sum_of(
                k.spec_private_key().take(i),
            ),
{
}

/// The modulus of a generated key pair is prime and greater than the sum of
/// the private key.
pub proof fn lemma_modulus_valid(k: &KeyPair)
    requires
        k.wf(),
    ensures
        prime(k.spec_n()),
        k.spec_n() > sum_of(k.spec_private_key()),
{
}

/// The multiplier of a generated key pair has an inverse modulo the modulus,
/// which is what `modinv` returns for it.
pub proof fn lemma_multiplier_invertible(k: &KeyPair)
    requires
        k.wf(),
    ensures
        invertible(k.spec_a(), k.spec_n()),
        is_inverse(k.spec_a(), k.spec_n(), mod_inverse(k.spec_a(), k.spec_n())),
        ((k.spec_a() as int) * (mod_inverse(k.spec_a(), k.spec_n()) as int)) % (k.spec_n() as int)
            == 1,
{
    lemma_inverse_exists(k.spec_a(), k.spec_n());
    vstd::arithmetic::div_mod::lemma_small_mod(1, k.spec_n());
}

} // verus!
