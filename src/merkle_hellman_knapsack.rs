use crate::keys::{sum_of, superincreasing, valid_keys, KeyPair, MODULUS_CEILING};
use crate::primes::{
    gcd_of, invertible, is_inverse, lemma_inverse_exists, mod_inverse, modinv,
};
use vstd::arithmetic::div_mod::{
    lemma_add_mod_noop, lemma_mod_twice, lemma_mul_mod_noop_left, lemma_mul_mod_noop_right,
    lemma_small_mod,
};
use vstd::arithmetic::power2::{lemma2_to64, lemma_pow2_unfold, pow2};
use vstd::prelude::*;

verus! {

/// Number of bits, and of key elements, per character.
pub const BLOCK_BITS: usize = 8;

/// The `k` lowest bits of `code`, most significant first.
pub open spec fn low_bits(code: nat, k: nat) -> Seq<bool>
    decreases k,
{
    if k == 0 {
        Seq::empty()
    } else {
        low_bits(code / 2, (k - 1) as nat).push(code % 2 == 1)
    }
}

/// The 8-bit codeword of a character: bit `i` pairs with key element `i`.
pub open spec fn char_bits(c: char) -> Seq<bool> {
    low_bits(c as nat, 8)
}

/// The number whose binary digits, most significant first, are `bits`.
pub open spec fn bits_value(bits: Seq<bool>) -> nat
    decreases bits.len(),
{
    if bits.len() == 0 {
        0
    } else {
        2 * bits_value(bits.drop_last()) + if bits.last() {
            1nat
        } else {
            0nat
        }
    }
}

/// Sum of the first `k` key elements whose bit is set.
pub open spec fn subset_sum(key: Seq<u32>, bits: Seq<bool>, k: int) -> int
    decreases k,
{
    if k <= 0 {
        0
    } else {
        subset_sum(key, bits, k - 1) + if bits[k - 1] {
            key[k - 1] as int
        } else {
            0
        }
    }
}

/// The cipher value of one character under a public key.
pub open spec fn encode_char(public_key: Seq<u32>, c: char) -> int {
    subset_sum(public_key, char_bits(c), BLOCK_BITS as int)
}

/// Greedy reconstruction of the bits of positions `[0, k)` from the target
/// `rem`, taking key element `k - 1` first and going down.
pub open spec fn greedy_bits(key: Seq<u32>, rem: int, k: int) -> Seq<bool>
    decreases k,
{
    if k <= 0 {
        Seq::empty()
    } else if rem >= key[k - 1] {
        greedy_bits(key, rem - key[k - 1], k - 1).push(true)
    } else {
        greedy_bits(key, rem, k - 1).push(false)
    }
}

/// The code that the greedy reconstruction gives for the target `rem`.
pub open spec fn decode_value(private_key: Seq<u32>, rem: int) -> nat {
    bits_value(greedy_bits(private_key, rem, BLOCK_BITS as int))
}

/// The character that decryption gives for one cipher value.
pub open spec fn decode_char(private_key: Seq<u32>, a: nat, n: nat, c: u32) -> char {
    (decode_value(private_key, ((c as int) * (mod_inverse(a, n) as int)) % (n as int)) as u8) as char
}

/// Relies on `String::push`: appends one character to the end of the string.
#[verifier::external_body]
fn push_char(s: &mut String, c: char)
    ensures
        final(s)@ == old(s)@.push(c),
{
    s.push(c);
}

/// The `k` lowest bits of `code`, most significant first.
fn codeword(code: u32, k: usize) -> (r: Vec<bool>)
    ensures
        r@ == low_bits(code as nat, k as nat),
        r@.len() == k,
    decreases k,
{
    if k == 0 {
        Vec::new()
    } else {
        let mut r = codeword(code / 2, k - 1);
        r.push(code % 2 == 1);
        r
    }
}

/// Sum of the key elements whose bit is set, over the first `bits.len()` positions.
fn knapsack_total(key: &[u32], bits: &Vec<bool>) -> (r: u64)
    requires
        bits@.len() <= key@.len(),
        bits@.len() <= BLOCK_BITS,
    ensures
        r as int == subset_sum(key@, bits@, bits@.len() as int),
{
    let mut total: u64 = 0;
    let mut i: usize = 0;
    while i < bits.len()
        invariant
            i <= bits@.len(),
            bits@.len() <= key@.len(),
            bits@.len() <= BLOCK_BITS,
            total as int == subset_sum(key@, bits@, i as int),
            total <= i * 0xFFFF_FFFF,
        decreases bits@.len() - i,
    {
        if bits[i] {
            total = total + key[i] as u64;
        }
        i = i + 1;
    }
    total
}

/// Greedy reconstruction of the bits of positions `[0, k)` from `rem`.
fn greedy(key: &[u32], rem: u64, k: usize) -> (r: Vec<bool>)
    requires
        k <= key@.len(),
    ensures
        r@ == greedy_bits(key@, rem as int, k as int),
        r@.len() == k,
    decreases k,
{
    if k == 0 {
        Vec::new()
    } else if rem >= key[k - 1] as u64 {
        let mut r = greedy(key, rem - key[k - 1] as u64, k - 1);
        r.push(true);
        r
    } else {
        let mut r = greedy(key, rem, k - 1);
        r.push(false);
        r
    }
}

/// The number whose eight binary digits, most significant first, are `bits`.
fn byte_value(bits: &Vec<bool>) -> (r: u8)
    requires
        bits@.len() == BLOCK_BITS,
    ensures
        r as nat == bits_value(bits@),
{
    let mut code: u32 = 0;
    let mut i: usize = 0;
    proof {
        lemma2_to64();
    }
    while i < bits.len()
        invariant
            i <= bits@.len() == BLOCK_BITS,
            code as nat == bits_value(bits@.take(i as int)),
            code < pow2(i as nat),
        decreases bits@.len() - i,
    {
        proof {
            lemma2_to64();
            assert(bits@.take(i + 1).drop_last() =~= bits@.take(i as int));
        }
        code = 2 * code + if bits[i] {
            1
        } else {
            0
        };
        i = i + 1;
    }
    proof {
        lemma2_to64();
        assert(bits@.take(i as int) =~= bits@);
    }
    code as u8
}

/// The cipher value of a character code under a public key.
fn encode_code(code: u32, public_key: &[u32]) -> (r: u64)
    requires
        public_key@.len() == BLOCK_BITS,
    ensures
        r as int == subset_sum(public_key@, low_bits(code as nat, 8), BLOCK_BITS as int),
{
    let bits = codeword(code, BLOCK_BITS);
    knapsack_total(public_key, &bits)
}

/// Why a message cannot be encrypted, or a cipher decrypted, under a key.
#[derive(Debug, Clone, Copy, PartialEq, Eq, Structural)]
pub enum CipherError {
    /// The key does not have one element per bit of a character.
    KeyLength,
    /// A character's code point does not fit in 8 bits.
    CodePointOutOfRange,
    /// A cipher value does not fit in `u32`.
    Overflow,
    /// The multiplier has no inverse modulo the modulus.
    NotInvertible,
}

/// `cipher` is the encryption of `message` under `public_key`.
pub open spec fn encrypts(cipher: Seq<u32>, message: Seq<char>, public_key: Seq<u32>) -> bool {
    &&& cipher.len() == message.len()
    &&& forall|i: int|
        0 <= i < message.len() ==> cipher[i] as int == #[trigger] encode_char(
            public_key,
            message[i],
        )
}

/// `text` is the decryption of `cipher` under the private key, `a` and `n`.
pub open spec fn decrypts(text: Seq<char>, cipher: Seq<u32>, private_key: Seq<u32>, a: nat, n: nat) -> bool {
    &&& text.len() == cipher.len()
    &&& forall|i: int|
        0 <= i < cipher.len() ==> text[i] == #[trigger] decode_char(private_key, a, n, cipher[i])
}

/// Encrypts each character of `message` as the sum of the public-key elements
/// selected by the bits of its 8-bit code, most significant bit first.
pub fn encrypt(message: &str, public_key: &[u32]) -> (r: Vec<u32>)
    requires
        public_key@.len() == BLOCK_BITS,
        forall|i: int| 0 <= i < message@.len() ==> (#[trigger] message@[i] as u32) < 256,
        forall|i: int|
            0 <= i < message@.len() ==> #[trigger] encode_char(public_key@, message@[i])
                <= u32::MAX,
    ensures
        encrypts(r@, message@, public_key@),
{
    let len = message.unicode_len();
    let mut result: Vec<u32> = Vec::new();
    let mut i: usize = 0;
    while i < len
        invariant
            len == message@.len(),
            i <= len,
            public_key@.len() == BLOCK_BITS,
            forall|j: int|
                0 <= j < message@.len() ==> #[trigger] encode_char(public_key@, message@[j])
                    <= u32::MAX,
            result@.len() == i,
            forall|j: int|
                0 <= j < i ==> result@[j] as int == #[trigger] encode_char(
                    public_key@,
                    message@[j],
                ),
        decreases len - i,
    {
        let c = message.get_char(i);
        let value = encode_code(c as u32, public_key);
        assert(value as int == encode_char(public_key@, message@[i as int]));
        result.push(value as u32);
        i = i + 1;
    }
    result
}

/// Decrypts each cipher value: multiplies it by the inverse of `a` modulo
/// `n`, rebuilds the 8-bit code greedily from the largest private-key element
/// down, and appends the character of that code.
pub fn decrypt(cipher: &[u32], private_key: &[u32], a: u32, n: u32) -> (r: String)
    requires
        private_key@.len() == BLOCK_BITS,
        invertible(a as nat, n as nat),
    ensures
        decrypts(r@, cipher@, private_key@, a as nat, n as nat),
{
    let mut result = String::new();
    let inverse = modinv(a, n);
    let mut i: usize = 0;
    while i < cipher.len()
        invariant
            i <= cipher@.len(),
            private_key@.len() == BLOCK_BITS,
            n >= 1,
            inverse == mod_inverse(a as nat, n as nat),
            inverse < n,
            result@.len() == i,
            forall|j: int|
                0 <= j < i ==> result@[j] == #[trigger] decode_char(
                    private_key@,
                    a as nat,
                    n as nat,
                    cipher@[j],
                ),
        decreases cipher@.len() - i,
    {
        let c = cipher[i];
        assert((c as int) * (inverse as int) <= 0xFFFF_FFFF * 0xFFFF_FFFF) by (nonlinear_arith)
            requires
                c <= 0xFFFF_FFFF,
                inverse <= 0xFFFF_FFFF,
        ;
        let target: u64 = (c as u64 * inverse as u64) % (n as u64);
        let bits = greedy(private_key, target, BLOCK_BITS);
        let code = byte_value(&bits);
        push_char(&mut result, code as char);
        i = i + 1;
    }
    result
}

/// Encrypts `message` after checking what `encrypt` requires: the key's
/// length first, then every code point, then every cipher value's size.
pub fn try_encrypt(message: &str, public_key: &[u32]) -> (r: Result<Vec<u32>, CipherError>)
    ensures
        public_key@.len() != BLOCK_BITS ==> r == Err::<Vec<u32>, CipherError>(CipherError::KeyLength),
        public_key@.len() == BLOCK_BITS ==> {
            let wide = exists|i: int|
                0 <= i < message@.len() && (#[trigger] message@[i] as u32) >= 256;
            let large = exists|i: int|
                0 <= i < message@.len() && #[trigger] encode_char(public_key@, message@[i])
                    > u32::MAX;
            &&& wide ==> r == Err::<Vec<u32>, CipherError>(CipherError::CodePointOutOfRange)
            &&& !wide && large ==> r == Err::<Vec<u32>, CipherError>(CipherError::Overflow)
            &&& !wide && !large ==> (r is Ok && encrypts(r->Ok_0@, message@, public_key@))
        },
{
    if public_key.len() != BLOCK_BITS {
        return Err(CipherError::KeyLength);
    }
    let len = message.unicode_len();
    let mut i: usize = 0;
    while i < len
        invariant
            len == message@.len(),
            i <= len,
            public_key@.len() == BLOCK_BITS,
            forall|j: int| 0 <= j < i ==> (#[trigger] message@[j] as u32) < 256,
        decreases len - i,
    {
        let c = message.get_char(i);
        if c as u32 >= 256 {
            assert(message@[i as int] as u32 >= 256);
            return Err(CipherError::CodePointOutOfRange);
        }
        i = i + 1;
    }
    i = 0;
    while i < len
        invariant
            len == message@.len(),
            i <= len,
            public_key@.len() == BLOCK_BITS,
            forall|j: int| 0 <= j < len ==> (#[trigger] message@[j] as u32) < 256,
            forall|j: int| 0 <= j < i ==> #[trigger] encode_char(public_key@, message@[j]) <= u32::MAX,
        decreases len - i,
    {
        let c = message.get_char(i);
        if encode_code(c as u32, public_key) > 0xFFFF_FFFF {
            assert(encode_char(public_key@, message@[i as int]) > u32::MAX);
            return Err(CipherError::Overflow);
        }
        i = i + 1;
    }
    Ok(encrypt(message, public_key))
}

/// Decrypts `cipher` after checking what `decrypt` requires: the key's length
/// first, then that `a` is invertible modulo `n`.
pub fn try_decrypt(cipher: &[u32], private_key: &[u32], a: u32, n: u32) -> (r: Result<String, CipherError>)
    ensures
        private_key@.len() != BLOCK_BITS ==> r == Err::<String, CipherError>(CipherError::KeyLength),
        private_key@.len() == BLOCK_BITS && !invertible(a as nat, n as nat) ==> r == Err::<
            String,
            CipherError,
        >(CipherError::NotInvertible),
        private_key@.len() == BLOCK_BITS && invertible(a as nat, n as nat) ==> (r is Ok && decrypts(
            r->Ok_0@,
            cipher@,
            private_key@,
            a as nat,
            n as nat,
        )),
{
    if private_key.len() != BLOCK_BITS {
        return Err(CipherError::KeyLength);
    }
    if n == 0 || gcd_of(a, n) != 1 {
        return Err(CipherError::NotInvertible);
    }
    Ok(decrypt(cipher, private_key, a, n))
}

/// Encryption is a function of the message and the public key: any two
/// results that `encrypt` may return for them are equal.
pub proof fn lemma_encrypt_deterministic(
    message: Seq<char>,
    public_key: Seq<u32>,
    first: Seq<u32>,
    second: Seq<u32>,
)
    requires
        encrypts(first, message, public_key),
        encrypts(second, message, public_key),
    ensures
        first == second,
{
    assert forall|i: int| 0 <= i < first.len() implies first[i] == second[i] by {
        assert(first[i] as int == encode_char(public_key, message[i]));
        assert(second[i] as int == encode_char(public_key, message[i]));
    }
    assert(first =~= second);
}

/// A subset sum lies between zero and the sum of the elements it draws from.
pub proof fn lemma_subset_sum_bounds(key: Seq<u32>, bits: Seq<bool>, k: int)
    requires
        0 <= k <= key.len(),
        k <= bits.len(),
    ensures
        0 <= subset_sum(key, bits, k) <= sum_of(key.take(k)),
    decreases k,
{
    if k > 0 {
        lemma_subset_sum_bounds(key, bits, k - 1);
        assert(key.take(k).drop_last() =~= key.take(k - 1));
    }
}

/// On a superincreasing key, the greedy reconstruction of a subset sum gives
/// back the bits that chose the subset.
pub proof fn lemma_greedy_recovers(key: Seq<u32>, bits: Seq<bool>, k: int)
    requires
        superincreasing(key),
        0 <= k <= key.len(),
        k <= bits.len(),
    ensures
        greedy_bits(key, subset_sum(key, bits, k), k) == bits.take(k),
    decreases k,
{
    if k > 0 {
        lemma_greedy_recovers(key, bits, k - 1);
        lemma_subset_sum_bounds(key, bits, k - 1);
        assert(key[k - 1] > sum_of(key.take(k - 1)));
        assert(bits.take(k - 1).push(bits[k - 1]) =~= bits.take(k));
    }
}

/// The binary digits of a number below `2^k` give back the number.
pub proof fn lemma_bits_value_low_bits(code: nat, k: nat)
    requires
        code < pow2(k),
    ensures
        bits_value(low_bits(code, k)) == code,
    decreases k,
{
    if k == 0 {
        vstd::arithmetic::power2::lemma2_to64();
    } else {
        lemma_pow2_unfold(k);
        lemma_bits_value_low_bits(code / 2, (k - 1) as nat);
        let b = low_bits(code, k);
        assert(b.drop_last() =~= low_bits(code / 2, (k - 1) as nat));
    }
}

/// Multiplying the private key by `a` modulo `n` carries over to subset sums.
pub proof fn lemma_subset_sum_mod(
    private_key: Seq<u32>,
    public_key: Seq<u32>,
    a: nat,
    n: nat,
    bits: Seq<bool>,
    k: int,
)
    requires
        n >= 1,
        0 <= k <= private_key.len(),
        k <= bits.len(),
        public_key.len() == private_key.len(),
        forall|i: int|
            0 <= i < private_key.len() ==> #[trigger] public_key[i] as int == ((
            private_key[i] as int) * (a as int)) % (n as int),
    ensures
        subset_sum(public_key, bits, k) % (n as int) == (subset_sum(private_key, bits, k) * (
        a as int)) % (n as int),
    decreases k,
{
    let ni = n as int;
    let ai = a as int;
    if k > 0 {
        lemma_subset_sum_mod(private_key, public_key, a, n, bits, k - 1);
        let p = subset_sum(public_key, bits, k - 1);
        let s = subset_sum(private_key, bits, k - 1);
        let x = private_key[k - 1] as int;
        let y: int = if bits[k - 1] {
            public_key[k - 1] as int
        } else {
            0
        };
        let z: int = if bits[k - 1] {
            x * ai
        } else {
            0
        };
        assert(subset_sum(private_key, bits, k) * ai == s * ai + z) by (nonlinear_arith)
            requires
                subset_sum(private_key, bits, k) == s + if bits[k - 1] {
                    x
                } else {
                    0
                },
                z == if bits[k - 1] {
                    x * ai
                } else {
                    0
                },
        ;
        lemma_add_mod_noop(p, y, ni);
        lemma_add_mod_noop(s * ai, z, ni);
        if bits[k - 1] {
            lemma_mod_twice(x * ai, ni);
        }
    }
}

/// Decryption undoes encryption, character by character, for key material as
/// key generation makes it and code points below 256. Each cipher value also
/// fits in `u32`, as `encrypt` requires.
pub proof fn lemma_round_trip(
    message: Seq<char>,
    private_key: Seq<u32>,
    a: nat,
    n: nat,
    public_key: Seq<u32>,
)
    requires
        valid_keys(private_key, a, n, public_key),
        private_key.len() == BLOCK_BITS,
        forall|i: int| 0 <= i < message.len() ==> (#[trigger] message[i] as u32) < 256,
    ensures
        forall|i: int|
            0 <= i < message.len() ==> #[trigger] encode_char(public_key, message[i])
                <= u32::MAX,
        forall|i: int|
            0 <= i < message.len() ==> #[trigger] decode_char(
                private_key,
                a,
                n,
                encode_char(public_key, message[i]) as u32,
            ) == message[i],
{
    assert forall|i: int| 0 <= i < message.len() implies #[trigger] encode_char(
        public_key,
        message[i],
    ) <= u32::MAX && decode_char(
        private_key,
        a,
        n,
        encode_char(public_key, message[i]) as u32,
    ) == message[i] by {
        lemma_char_round_trip(message[i], private_key, a, n, public_key);
    }
}

/// For every generated key pair of eight-element keys and every message of
/// code points below 256, `encrypt` accepts the message under the public key,
/// and `decrypt` of what it returns, under the private key, `a` and `n`,
/// gives the message back.
pub proof fn lemma_key_pair_round_trip(
    k: &KeyPair,
    message: Seq<char>,
    cipher: Seq<u32>,
    text: Seq<char>,
)
    requires
        k.wf(),
        k.spec_private_key().len() == BLOCK_BITS,
        forall|i: int| 0 <= i < message.len() ==> (#[trigger] message[i] as u32) < 256,
        encrypts(cipher, message, k.spec_public_key()),
        decrypts(text, cipher, k.spec_private_key(), k.spec_a(), k.spec_n()),
    ensures
        forall|i: int|
            0 <= i < message.len() ==> #[trigger] encode_char(k.spec_public_key(), message[i])
                <= u32::MAX,
        text == message,
{
    lemma_round_trip(message, k.spec_private_key(), k.spec_a(), k.spec_n(), k.spec_public_key());
    assert forall|i: int| 0 <= i < message.len() implies text[i] == message[i] by {
        let e = encode_char(k.spec_public_key(), message[i]);
        assert(cipher[i] as int == e);
        assert(cipher[i] == e as u32);
        assert(decode_char(k.spec_private_key(), k.spec_a(), k.spec_n(), e as u32) == message[i]);
        assert(text[i] == decode_char(k.spec_private_key(), k.spec_a(), k.spec_n(), cipher[i]));
    }
    assert(text =~= message);
}

/// One character of the round trip.
proof fn lemma_char_round_trip(
    ch: char,
    private_key: Seq<u32>,
    a: nat,
    n: nat,
    public_key: Seq<u32>,
)
    requires
        valid_keys(private_key, a, n, public_key),
        private_key.len() == BLOCK_BITS,
        (ch as u32) < 256,
    ensures
        encode_char(public_key, ch) <= u32::MAX,
        decode_char(private_key, a, n, encode_char(public_key, ch) as u32) == ch,
{
    let ni = n as int;
    let ai = a as int;
    let bits = char_bits(ch);
    lemma2_to64();
    lemma_bits_value_low_bits(ch as nat, 8);
    assert(bits.len() == 8) by {
        lemma_low_bits_len(ch as nat, 8);
    }
    lemma_subset_sum_bounds(private_key, bits, 8);
    lemma_subset_sum_bounds(public_key, bits, 8);
    lemma_subset_sum_each_below(public_key, bits, 8, ni);
    assert(private_key.take(8) =~= private_key);
    let s = subset_sum(private_key, bits, 8);
    let c = encode_char(public_key, ch);
    assert(c <= 8 * (MODULUS_CEILING as int));
    lemma_subset_sum_mod(private_key, public_key, a, n, bits, 8);
    lemma_inverse_exists(a, n);
    let inv = mod_inverse(a, n) as int;
    assert(is_inverse(a, n, inv as nat));
    lemma_small_mod(1, n);
    lemma_small_mod(s as nat, n);
    // (c * inv) % n == ((c % n) * inv) % n == (((s * a) % n) * inv) % n == s
    lemma_mul_mod_noop_left(c, inv, ni);
    lemma_mul_mod_noop_left(s * ai, inv, ni);
    assert((s * ai) * inv == s * (ai * inv)) by (nonlinear_arith);
    lemma_mul_mod_noop_right(s, ai * inv, ni);
    assert(((c as u32) as int) * inv % ni == s);
    lemma_greedy_recovers(private_key, bits, 8);
    assert(bits.take(8) =~= bits);
    assert(decode_value(private_key, s) == ch as nat);
}

/// `low_bits(code, k)` has `k` bits.
proof fn lemma_low_bits_len(code: nat, k: nat)
    ensures
        low_bits(code, k).len() == k,
    decreases k,
{
    if k > 0 {
        lemma_low_bits_len(code / 2, (k - 1) as nat);
    }
}

/// A subset sum of `k` elements, each below `bound`, is below `k * bound`.
proof fn lemma_subset_sum_each_below(key: Seq<u32>, bits: Seq<bool>, k: int, bound: int)
    requires
        0 <= k <= key.len(),
        k <= bits.len(),
        forall|i: int| 0 <= i < key.len() ==> #[trigger] key[i] < bound,
    ensures
        subset_sum(key, bits, k) <= k * bound,
    decreases k,
{
    if k > 0 {
        lemma_subset_sum_each_below(key, bits, k - 1, bound);
        assert(key[k - 1] < bound);
        assert((k - 1) * bound + bound == k * bound) by (nonlinear_arith);
        assert(subset_sum(key, bits, k) <= subset_sum(key, bits, k - 1) + bound);
    } else {
        assert(k * bound == 0) by (nonlinear_arith)
            requires
                k == 0,
        ;
    }
}

} // verus!
