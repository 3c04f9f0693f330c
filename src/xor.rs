//! XOR of byte strings, repeating-key XOR, and the bit distance between
//! byte strings.
use vstd::prelude::*;

verus! {

/// Position-wise XOR of `a` and `b`, as long as the shorter of the two.
pub open spec fn xor_seq(a: Seq<u8>, b: Seq<u8>) -> Seq<u8> {
    Seq::new(
        if a.len() <= b.len() {
            a.len()
        } else {
            b.len()
        },
        |i: int| a[i] ^ b[i],
    )
}

/// `s` XORed with `key` repeated cyclically; empty for an empty key.
pub open spec fn repeating_xor(s: Seq<u8>, key: Seq<u8>) -> Seq<u8> {
    if key.len() == 0 {
        Seq::empty()
    } else {
        Seq::new(s.len(), |i: int| s[i] ^ key[i % (key.len() as int)])
    }
}

/// `s` with every byte XORed with `k`.
pub open spec fn single_xor(s: Seq<u8>, k: u8) -> Seq<u8> {
    Seq::new(s.len(), |i: int| s[i] ^ k)
}

/// Number of set bits of `b`.
pub open spec fn popcount(b: u8) -> nat
    decreases b,
{
    if b == 0 {
        0
    } else {
        (b % 2) as nat + popcount(b / 2)
    }
}

/// Total number of set bits in `s`.
pub open spec fn total_popcount(s: Seq<u8>) -> nat
    decreases s.len(),
{
    if s.len() == 0 {
        0
    } else {
        total_popcount(s.drop_last()) + popcount(s.last())
    }
}

/// The bit (Hamming) distance of `a` and `b`: the number of set bits of
/// their position-wise XOR.
pub open spec fn bit_distance(a: Seq<u8>, b: Seq<u8>) -> nat {
    total_popcount(xor_seq(a, b))
}

spec fn pow_two(k: nat) -> nat
    decreases k,
{
    if k == 0 {
        1
    } else {
        2 * pow_two((k - 1) as nat)
    }
}

proof fn lemma_popcount_below(x: u8, k: nat)
    requires
        (x as nat) < pow_two(k),
    ensures
        popcount(x) <= k,
    decreases k,
{
    if x != 0 {
        lemma_popcount_below(x / 2, (k - 1) as nat);
    }
}

pub proof fn lemma_popcount_at_most_8(x: u8)
    ensures
        popcount(x) <= 8,
{
    reveal_with_fuel(pow_two, 9);
    lemma_popcount_below(x, 8);
}

proof fn lemma_total_popcount_bound(s: Seq<u8>)
    ensures
        total_popcount(s) <= 8 * s.len(),
    decreases s.len(),
{
    if s.len() > 0 {
        lemma_total_popcount_bound(s.drop_last());
        lemma_popcount_at_most_8(s.last());
    }
}

/// XOR of `first` and `second` position by position, as long as the shorter
/// of the two.
pub fn xor(first: &[u8], second: &[u8]) -> (r: Vec<u8>)
    ensures
        r@ == xor_seq(first@, second@),
{
    let n = if first.len() <= second.len() {
        first.len()
    } else {
        second.len()
    };
    let mut r: Vec<u8> = Vec::with_capacity(n);
    let mut i: usize = 0;
    while i < n
        invariant
            i <= n,
            n == xor_seq(first@, second@).len(),
            r@ == xor_seq(first@, second@).subrange(0, i as int),
        decreases n - i,
    {
        r.push(first[i] ^ second[i]);
        i = i + 1;
    }
    assert(r@ =~= xor_seq(first@, second@));
    r
}

/// `ciphertext` XORed with `key` repeated as often as needed; empty when the
/// key is empty.
pub fn repeating_key_xor(ciphertext: &[u8], key: &[u8]) -> (r: Vec<u8>)
    ensures
        r@ == repeating_xor(ciphertext@, key@),
{
    let mut r: Vec<u8> = Vec::new();
    if key.len() == 0 {
        assert(r@ =~= repeating_xor(ciphertext@, key@));
        return r;
    }
    let mut i: usize = 0;
    let mut j: usize = 0;
    while i < ciphertext.len()
        invariant
            key@.len() > 0,
            i <= ciphertext@.len(),
            j == i as int % (key@.len() as int),
            r@ == repeating_xor(ciphertext@, key@).subrange(0, i as int),
        decreases ciphertext@.len() - i,
    {
        r.push(ciphertext[i] ^ key[j]);
        proof {
            let k = key@.len() as int;
            let q = i as int / k;
            vstd::arithmetic::div_mod::lemma_fundamental_div_mod(i as int, k);
            assert(i + 1 == q * k + j + 1 && i + 1 == (q + 1) * k + (j + 1 - k)) by (nonlinear_arith)
                requires
                    i == k * q + j,
            ;
            if j + 1 == k {
                vstd::arithmetic::div_mod::lemma_fundamental_div_mod_converse(
                    i + 1,
                    k,
                    q + 1,
                    0,
                );
            } else {
                vstd::arithmetic::div_mod::lemma_fundamental_div_mod_converse(
                    i + 1,
                    k,
                    q,
                    j + 1,
                );
            }
        }
        j = if j + 1 == key.len() {
            0
        } else {
            j + 1
        };
        i = i + 1;
    }
    assert(r@ =~= repeating_xor(ciphertext@, key@));
    r
}

/// Number of set bits of `b`.
fn count_ones(b: u8) -> (r: u32)
    ensures
        r == popcount(b),
{
    proof {
        lemma_popcount_at_most_8(b);
    }
    let mut x: u8 = b;
    let mut n: u32 = 0;
    while x > 0
        invariant
            n + popcount(x) == popcount(b),
            popcount(b) <= 8,
        decreases x,
    {
        n = n + (x % 2) as u32;
        x = x / 2;
    }
    n
}

/// The bit (Hamming) distance of `first` and `second`, compared over the
/// length of the shorter one.
pub fn edit_distance(first: &[u8], second: &[u8]) -> (r: u32)
    requires
        8 * xor_seq(first@, second@).len() <= u32::MAX,
    ensures
        r == bit_distance(first@, second@),
{
    let xored = xor(first, second);
    let mut sum: u32 = 0;
    let mut i: usize = 0;
    while i < xored.len()
        invariant
            i <= xored@.len(),
            xored@ == xor_seq(first@, second@),
            8 * xored@.len() <= u32::MAX,
            sum == total_popcount(xored@.subrange(0, i as int)),
        decreases xored@.len() - i,
    {
        let ones = count_ones(xored[i]);
        proof {
            let next = xored@.subrange(0, i + 1);
            assert(next.drop_last() =~= xored@.subrange(0, i as int));
            lemma_total_popcount_bound(next);
        }
        sum = sum + ones;
        i = i + 1;
    }
    assert(xored@.subrange(0, xored@.len() as int) =~= xored@);
    sum
}

/// XORing twice with the same bytes gives back the original:
/// `xor(xor(a, b), b) == a` for `a` and `b` of equal length.
pub proof fn lemma_xor_involution(a: Seq<u8>, b: Seq<u8>)
    requires
        a.len() == b.len(),
    ensures
        xor_seq(xor_seq(a, b), b) == a,
{
    assert forall|i: int| 0 <= i < a.len() implies #[trigger] xor_seq(xor_seq(a, b), b)[i]
        == a[i] by {
        let x = a[i];
        let y = b[i];
        assert((x ^ y) ^ y == x) by (bit_vector);
    }
    assert(xor_seq(xor_seq(a, b), b) =~= a);
}

/// Repeating-key XOR undoes itself: applying the same key twice gives back
/// the original text.
pub proof fn lemma_repeating_xor_involution(s: Seq<u8>, key: Seq<u8>)
    requires
        key.len() > 0,
    ensures
        repeating_xor(repeating_xor(s, key), key) == s,
{
    assert forall|i: int| 0 <= i < s.len() implies #[trigger] repeating_xor(
        repeating_xor(s, key),
        key,
    )[i] == s[i] by {
        let x = s[i];
        let y = key[i % (key.len() as int)];
        assert((x ^ y) ^ y == x) by (bit_vector);
    }
    assert(repeating_xor(repeating_xor(s, key), key) =~= s);
}

/// Single-byte XOR undoes itself.
pub proof fn lemma_single_xor_involution(s: Seq<u8>, k: u8)
    ensures
        single_xor(single_xor(s, k), k) == s,
{
    assert forall|i: int| 0 <= i < s.len() implies #[trigger] single_xor(single_xor(s, k), k)[i]
        == s[i] by {
        let x = s[i];
        assert((x ^ k) ^ k == x) by (bit_vector);
    }
    assert(single_xor(single_xor(s, k), k) =~= s);
}

/// The bit distance is symmetric, and zero from a string to itself.
pub proof fn lemma_bit_distance_symmetric(a: Seq<u8>, b: Seq<u8>)
    ensures
        bit_distance(a, b) == bit_distance(b, a),
        bit_distance(a, a) == 0,
{
    assert forall|i: int| 0 <= i < xor_seq(a, b).len() implies #[trigger] xor_seq(a, b)[i]
        == xor_seq(b, a)[i] by {
        let x = a[i];
        let y = b[i];
        assert(x ^ y == y ^ x) by (bit_vector);
    }
    assert(xor_seq(a, b) =~= xor_seq(b, a));
    assert forall|i: int| 0 <= i < a.len() implies #[trigger] xor_seq(a, a)[i] == 0 by {
        let x = a[i];
        assert(x ^ x == 0) by (bit_vector);
    }
    lemma_total_popcount_zero(xor_seq(a, a));
}

proof fn lemma_total_popcount_zero(s: Seq<u8>)
    requires
        forall|i: int| 0 <= i < s.len() ==> s[i] == 0,
    ensures
        total_popcount(s) == 0,
    decreases s.len(),
{
    if s.len() > 0 {
        lemma_total_popcount_zero(s.drop_last());
    }
}

} // verus!
