//! Recovering XOR keys by frequency analysis: the single-byte break, the
//! choice among many ciphertexts, and the repeating-key break.
use vstd::prelude::*;
use crate::score::{Score, Scorer, denom_of, ratio_lt};
use crate::keysize::{best_keysizes, is_ranking};
use crate::xor::{
    lemma_repeating_xor_involution, lemma_single_xor_involution, repeating_key_xor, repeating_xor,
    single_xor,
};

verus! {

/// The first key among `0..=n` whose decryption of `ct` scores highest.
pub open spec fn best_key_upto(m: Scorer, ct: Seq<u8>, n: nat) -> u8
    decreases n,
{
    if n == 0 {
        0
    } else {
        let b = best_key_upto(m, ct, (n - 1) as nat);
        if m.beats(single_xor(ct, n as u8), single_xor(ct, b)) {
            n as u8
        } else {
            b
        }
    }
}

/// The smallest single-byte key whose decryption of `ct` scores highest.
pub open spec fn best_key(m: Scorer, ct: Seq<u8>) -> u8 {
    best_key_upto(m, ct, 255)
}

/// The decryption of `ct` under its best single-byte key.
pub open spec fn best_plaintext(m: Scorer, ct: Seq<u8>) -> Seq<u8> {
    single_xor(ct, best_key(m, ct))
}

/// `ciphertext` with every byte XORed with `key`.
fn single_byte_xor(ciphertext: &[u8], key: u8) -> (r: Vec<u8>)
    ensures
        r@ == single_xor(ciphertext@, key),
{
    let keys: Vec<u8> = vec![key];
    let r = repeating_key_xor(ciphertext, keys.as_slice());
    assert(r@ =~= single_xor(ciphertext@, key));
    r
}

/// Tries every single-byte key on `ciphertext` and returns the score, the
/// plaintext and the key of the highest-scoring decryption; among equal
/// scores the smallest key wins.
pub fn decrypt_single_byte_xor(ciphertext: &[u8], freqs: &Scorer) -> (r: (Score, Vec<u8>, u8))
    ensures
        r.2 == best_key(*freqs, ciphertext@),
        r.1@ == single_xor(ciphertext@, r.2),
        r.0.numer() == freqs.weight(r.1@),
        r.0.denom() == denom_of(ciphertext@.len()),
{
    let mut best_byte: u8 = 0;
    let mut best_text = single_byte_xor(ciphertext, 0);
    let mut best_score = freqs.score(best_text.as_slice());
    let mut next: u16 = 1;
    while next < 256
        invariant
            1 <= next <= 256,
            best_byte == best_key_upto(*freqs, ciphertext@, (next - 1) as nat),
            best_text@ == single_xor(ciphertext@, best_byte),
            best_score.numer() == freqs.weight(best_text@),
            best_score.denom() == denom_of(best_text@.len()),
        decreases 256 - next,
    {
        let byte = next as u8;
        let text = single_byte_xor(ciphertext, byte);
        let score = freqs.score(text.as_slice());
        if best_score.less_than(&score) {
            best_byte = byte;
            best_text = text;
            best_score = score;
        }
        next = next + 1;
    }
    (best_score, best_text, best_byte)
}

/// The index, among the first `n + 1` ciphertexts, of the first one whose
/// best decryption scores highest.
pub open spec fn best_line_upto(m: Scorer, cts: Seq<Seq<u8>>, n: nat) -> nat
    decreases n,
{
    if n == 0 {
        0
    } else {
        let b = best_line_upto(m, cts, (n - 1) as nat);
        if m.beats(best_plaintext(m, cts[n as int]), best_plaintext(m, cts[b as int])) {
            n
        } else {
            b
        }
    }
}

/// The byte strings that the slices `cts` hold.
pub open spec fn slices_view(cts: Seq<&[u8]>) -> Seq<Seq<u8>> {
    cts.map_values(|c: &[u8]| c@)
}

/// Breaks each ciphertext as a single-byte XOR and returns the best
/// decryption over all of them; the first wins among equal scores, and there
/// is none when there are no ciphertexts.
pub fn find_single_byte_xor(ciphertexts: Vec<&[u8]>, freqs: &Scorer) -> (r: Option<Vec<u8>>)
    ensures
        r is None <==> ciphertexts@.len() == 0,
        r is Some ==> r->0@ == best_plaintext(
            *freqs,
            slices_view(ciphertexts@)[best_line_upto(
                *freqs,
                slices_view(ciphertexts@),
                (ciphertexts@.len() - 1) as nat,
            ) as int],
        ),
{
    if ciphertexts.len() == 0 {
        return None;
    }
    let ghost cts = slices_view(ciphertexts@);
    let (first_score, first_text, _) = decrypt_single_byte_xor(ciphertexts[0], freqs);
    let mut best_text = first_text;
    let mut best_score = first_score;
    let ghost mut best_index: nat = 0;
    let mut i: usize = 1;
    while i < ciphertexts.len()
        invariant
            1 <= i <= ciphertexts@.len(),
            cts == slices_view(ciphertexts@),
            best_index == best_line_upto(*freqs, cts, (i - 1) as nat),
            best_index < i,
            best_text@ == best_plaintext(*freqs, cts[best_index as int]),
            best_score.numer() == freqs.weight(best_text@),
            best_score.denom() == denom_of(best_text@.len()),
        decreases ciphertexts@.len() - i,
    {
        let (score, text, _) = decrypt_single_byte_xor(ciphertexts[i], freqs);
        if best_score.less_than(&score) {
            best_text = text;
            best_score = score;
            proof {
                best_index = i as nat;
            }
        }
        i = i + 1;
    }
    Some(best_text)
}

/// Column `j` of `s` for key length `k`: the bytes at the positions equal to
/// `j` modulo `k`, in order.
pub open spec fn column(s: Seq<u8>, k: nat, j: nat) -> Seq<u8>
    decreases s.len(),
{
    if s.len() == 0 {
        Seq::empty()
    } else if (s.len() - 1) as nat % k == j {
        column(s.drop_last(), k, j).push(s.last())
    } else {
        column(s.drop_last(), k, j)
    }
}

/// The key of length `k` made of the best single-byte key of each column.
pub open spec fn recovered_key(m: Scorer, ct: Seq<u8>, k: nat) -> Seq<u8> {
    Seq::new(k, |j: int| best_key(m, column(ct, k, j as nat)))
}

/// The decryption of `ct` under the key of length `k` recovered from it.
pub open spec fn break_with_size(m: Scorer, ct: Seq<u8>, k: nat) -> Seq<u8> {
    repeating_xor(ct, recovered_key(m, ct, k))
}

/// Among the decryptions under the first `n + 1` key lengths of `sizes`, the
/// first that scores highest.
pub open spec fn best_break_upto(m: Scorer, ct: Seq<u8>, sizes: Seq<usize>, n: nat) -> Seq<u8>
    decreases n,
{
    if n == 0 {
        break_with_size(m, ct, sizes[0] as nat)
    } else {
        let b = best_break_upto(m, ct, sizes, (n - 1) as nat);
        let c = break_with_size(m, ct, sizes[n as int] as nat);
        if m.beats(c, b) {
            c
        } else {
            b
        }
    }
}

/// How many of the best-ranked key lengths the repeating-key break tries.
pub const KEYSIZES_TRIED: usize = 4;

/// Why a repeating-key XOR could not be broken.
#[derive(Debug, Clone, Copy, PartialEq, Eq)]
pub enum BreakError {
    /// The ciphertext is too short for two blocks of any key length.
    DegenerateInput,
}

/// Recovers a key of `keysize` bytes: byte `j` is the best single-byte key
/// of the column of ciphertext bytes at positions equal to `j` modulo
/// `keysize`.
pub fn recover_key(ciphertext: &[u8], freqs: &Scorer, keysize: usize) -> (r: Vec<u8>)
    requires
        keysize > 0,
    ensures
        r@ == recovered_key(*freqs, ciphertext@, keysize as nat),
{
    let mut groups: Vec<Vec<u8>> = Vec::with_capacity(keysize);
    let mut j: usize = 0;
    while j < keysize
        invariant
            j <= keysize,
            groups@.len() == j,
            forall|t: int| 0 <= t < j ==> (#[trigger] groups@[t])@ == Seq::<u8>::empty(),
        decreases keysize - j,
    {
        groups.push(Vec::new());
        j = j + 1;
    }
    let mut i: usize = 0;
    while i < ciphertext.len()
        invariant
            keysize > 0,
            i <= ciphertext@.len(),
            groups@.len() == keysize,
            forall|t: int|
                0 <= t < keysize ==> (#[trigger] groups@[t])@ == column(
                    ciphertext@.subrange(0, i as int),
                    keysize as nat,
                    t as nat,
                ),
        decreases ciphertext@.len() - i,
    {
        let ghost old_groups = groups@;
        let col = i % keysize;
        groups[col].push(ciphertext[i]);
        proof {
            let prefix = ciphertext@.subrange(0, i as int);
            let next = ciphertext@.subrange(0, i + 1);
            assert(next.drop_last() =~= prefix);
            assert forall|t: int| 0 <= t < keysize implies (#[trigger] groups@[t])@ == column(
                next,
                keysize as nat,
                t as nat,
            ) by {
                if t != col {
                    assert(groups@[t] == old_groups[t]);
                }
            }
        }
        i = i + 1;
    }
    assert(ciphertext@.subrange(0, ciphertext@.len() as int) =~= ciphertext@);
    let mut key: Vec<u8> = Vec::with_capacity(keysize);
    let mut j: usize = 0;
    while j < keysize
        invariant
            j <= keysize,
            groups@.len() == keysize,
            forall|t: int|
                0 <= t < keysize ==> (#[trigger] groups@[t])@ == column(
                    ciphertext@,
                    keysize as nat,
                    t as nat,
                ),
            key@ == recovered_key(*freqs, ciphertext@, keysize as nat).subrange(0, j as int),
        decreases keysize - j,
    {
        let (_, _, byte) = decrypt_single_byte_xor(groups[j].as_slice(), freqs);
        key.push(byte);
        j = j + 1;
        proof {
            assert(key@ =~= recovered_key(*freqs, ciphertext@, keysize as nat).subrange(
                0,
                j as int,
            ));
        }
    }
    assert(key@ =~= recovered_key(*freqs, ciphertext@, keysize as nat));
    key
}

/// Decrypts `ciphertext` under the key of `keysize` bytes that
/// `recover_key` finds.
pub fn break_repeating_key_xor_size(ciphertext: &[u8], freqs: &Scorer, keysize: usize) -> (r: Vec<
    u8,
>)
    requires
        keysize > 0,
    ensures
        r@ == break_with_size(*freqs, ciphertext@, keysize as nat),
{
    let key = recover_key(ciphertext, freqs, keysize);
    repeating_key_xor(ciphertext, key.as_slice())
}

/// Breaks a repeating-key XOR: tries the best-ranked key lengths of
/// `best_keysizes`, at most `KEYSIZES_TRIED` of them, and returns the
/// decryption that scores highest, the first among equal scores. Fails when
/// the ciphertext has no candidate key length.
pub fn break_repeating_key_xor(ciphertext: &[u8], freqs: &Scorer) -> (r: Result<
    Vec<u8>,
    BreakError,
>)
    ensures
        r is Err <==> ciphertext@.len() < 4,
        r is Err ==> r == Err::<Vec<u8>, BreakError>(BreakError::DegenerateInput),
        r is Ok ==> exists|ks: Seq<usize>|
            #![trigger is_ranking(ciphertext@, ks)]
            is_ranking(ciphertext@, ks) && ks.len() > 0 && r->Ok_0@ == best_break_upto(
                *freqs,
                ciphertext@,
                ks,
                (tried_count(ks.len()) - 1) as nat,
            ),
{
    let sizes = best_keysizes(ciphertext);
    if sizes.len() == 0 {
        proof {
            if ciphertext@.len() >= 4 {
                let two: nat = 2;
                assert(crate::keysize::is_candidate(ciphertext@.len(), two));
                assert(sizes@.contains(two as usize));
            }
        }
        return Err(BreakError::DegenerateInput);
    }
    proof {
        assert(crate::keysize::is_candidate(ciphertext@.len(), sizes@[0] as nat));
    }
    let count = if sizes.len() < KEYSIZES_TRIED {
        sizes.len()
    } else {
        KEYSIZES_TRIED
    };
    let mut best_text = break_repeating_key_xor_size(ciphertext, freqs, sizes[0]);
    let mut best_score = freqs.score(best_text.as_slice());
    let mut t: usize = 1;
    while t < count
        invariant
            1 <= t <= count <= sizes@.len(),
            is_ranking(ciphertext@, sizes@),
            best_text@ == best_break_upto(*freqs, ciphertext@, sizes@, (t - 1) as nat),
            best_score.numer() == freqs.weight(best_text@),
            best_score.denom() == denom_of(best_text@.len()),
        decreases count - t,
    {
        proof {
            assert(crate::keysize::is_candidate(ciphertext@.len(), sizes@[t as int] as nat));
        }
        let text = break_repeating_key_xor_size(ciphertext, freqs, sizes[t]);
        let score = freqs.score(text.as_slice());
        if best_score.less_than(&score) {
            best_text = text;
            best_score = score;
        }
        t = t + 1;
    }
    Ok(best_text)
}

proof fn lemma_best_key_upto_bounded(m: Scorer, ct: Seq<u8>, n: nat)
    requires
        n <= 255,
    ensures
        best_key_upto(m, ct, n) <= n,
    decreases n,
{
    if n > 0 {
        lemma_best_key_upto_bounded(m, ct, (n - 1) as nat);
    }
}

proof fn lemma_unique_best_key(m: Scorer, ct: Seq<u8>, key: u8, n: nat)
    requires
        n <= 255,
        key <= n,
        forall|k: u8| k != key ==> #[trigger] m.beats(single_xor(ct, key), single_xor(ct, k)),
    ensures
        best_key_upto(m, ct, n) == key,
    decreases n,
{
    if n > 0 {
        let prev = best_key_upto(m, ct, (n - 1) as nat);
        if key <= n - 1 {
            lemma_unique_best_key(m, ct, key, (n - 1) as nat);
            assert(m.beats(single_xor(ct, key), single_xor(ct, n as u8)));
        } else {
            lemma_best_key_upto_bounded(m, ct, (n - 1) as nat);
            assert(m.beats(single_xor(ct, key), single_xor(ct, prev)));
        }
    }
}

/// The single-byte break recovers the key and the plaintext: when
/// `plaintext`, XORed with `key`, scores strictly higher than the decryption
/// of the ciphertext under every other key, the best key of that ciphertext
/// is `key` and its best decryption is `plaintext`.
pub proof fn lemma_single_byte_break_recovers(m: Scorer, plaintext: Seq<u8>, key: u8)
    requires
        forall|k: u8|
            k != key ==> #[trigger] m.beats(
                plaintext,
                single_xor(single_xor(plaintext, key), k),
            ),
    ensures
        best_key(m, single_xor(plaintext, key)) == key,
        best_plaintext(m, single_xor(plaintext, key)) == plaintext,
{
    let ct = single_xor(plaintext, key);
    lemma_single_xor_involution(plaintext, key);
    assert forall|k: u8| k != key implies #[trigger] m.beats(
        single_xor(ct, key),
        single_xor(ct, k),
    ) by {
        assert(m.beats(plaintext, single_xor(ct, k)));
    }
    lemma_unique_best_key(m, ct, key, 255);
}

/// Column `j` of a repeating-key XOR is column `j` of the text XORed with
/// byte `j` of the key.
pub proof fn lemma_column_of_repeating_xor(s: Seq<u8>, key: Seq<u8>, j: nat)
    requires
        j < key.len(),
    ensures
        column(repeating_xor(s, key), key.len(), j) == single_xor(column(s, key.len(), j), key[j as int]),
    decreases s.len(),
{
    let k = key.len();
    let x = repeating_xor(s, key);
    if s.len() > 0 {
        lemma_column_of_repeating_xor(s.drop_last(), key, j);
        assert(x.drop_last() =~= repeating_xor(s.drop_last(), key));
        if (s.len() - 1) as nat % k == j {
            assert(column(x, k, j) =~= single_xor(column(s, k, j), key[j as int]));
        }
    } else {
        assert(column(x, k, j) =~= single_xor(column(s, k, j), key[j as int]));
    }
}

/// Whether XORing column `j` of `plaintext` with byte `j` of `key` makes a
/// column whose single-byte break has `key[j]` as its unique best key.
pub open spec fn column_is_clear(m: Scorer, plaintext: Seq<u8>, key: Seq<u8>, j: nat) -> bool {
    let pc = column(plaintext, key.len(), j);
    forall|b: u8|
        b != key[j as int] ==> #[trigger] m.beats(pc, single_xor(single_xor(pc, key[j as int]), b))
}

/// The break with the right key length recovers the key and the plaintext
/// when every column has its key byte as unique best key.
pub proof fn lemma_break_with_size_recovers(m: Scorer, plaintext: Seq<u8>, key: Seq<u8>)
    requires
        key.len() > 0,
        forall|j: nat| j < key.len() ==> #[trigger] column_is_clear(m, plaintext, key, j),
    ensures
        recovered_key(m, repeating_xor(plaintext, key), key.len()) == key,
        break_with_size(m, repeating_xor(plaintext, key), key.len()) == plaintext,
{
    let ct = repeating_xor(plaintext, key);
    let k = key.len();
    assert forall|j: int| 0 <= j < k implies #[trigger] recovered_key(m, ct, k)[j] == key[j] by {
        assert(column_is_clear(m, plaintext, key, j as nat));
        lemma_column_of_repeating_xor(plaintext, key, j as nat);
        lemma_single_byte_break_recovers(m, column(plaintext, k, j as nat), key[j]);
    }
    assert(recovered_key(m, ct, k) =~= key);
    lemma_repeating_xor_involution(plaintext, key);
}

proof fn lemma_best_break_is_a_candidate(m: Scorer, ct: Seq<u8>, sizes: Seq<usize>, n: nat)
    ensures
        exists|t: nat| t <= n && best_break_upto(m, ct, sizes, n) == break_with_size(m, ct, sizes[t as int] as nat),
    decreases n,
{
    if n == 0 {
        assert(best_break_upto(m, ct, sizes, n) == break_with_size(m, ct, sizes[0] as nat));
    } else {
        lemma_best_break_is_a_candidate(m, ct, sizes, (n - 1) as nat);
        let b = best_break_upto(m, ct, sizes, (n - 1) as nat);
        let c = break_with_size(m, ct, sizes[n as int] as nat);
        if !m.beats(c, b) {
            let t = choose|t: nat| t <= n - 1 && b == break_with_size(m, ct, sizes[t as int] as nat);
            assert(best_break_upto(m, ct, sizes, n) == break_with_size(m, ct, sizes[t as int] as nat));
        }
    }
}

proof fn lemma_best_break_selects(
    m: Scorer,
    ct: Seq<u8>,
    sizes: Seq<usize>,
    n: nat,
    idx: nat,
    plaintext: Seq<u8>,
)
    requires
        idx <= n,
        break_with_size(m, ct, sizes[idx as int] as nat) == plaintext,
        forall|t: nat|
            t <= n ==> #[trigger] break_with_size(m, ct, sizes[t as int] as nat) == plaintext
                || m.beats(plaintext, break_with_size(m, ct, sizes[t as int] as nat)),
    ensures
        best_break_upto(m, ct, sizes, n) == plaintext,
    decreases n,
{
    if n > 0 {
        let b = best_break_upto(m, ct, sizes, (n - 1) as nat);
        let c = break_with_size(m, ct, sizes[n as int] as nat);
        if idx <= n - 1 {
            lemma_best_break_selects(m, ct, sizes, (n - 1) as nat, idx, plaintext);
            assert(c == plaintext || m.beats(plaintext, c));
        } else {
            lemma_best_break_is_a_candidate(m, ct, sizes, (n - 1) as nat);
            let t = choose|t: nat| t <= n - 1 && b == break_with_size(m, ct, sizes[t as int] as nat);
            assert(b == plaintext || m.beats(plaintext, b));
        }
    }
}

/// The number of key lengths that the repeating-key break tries out of a
/// ranking of `len` lengths.
pub open spec fn tried_count(len: nat) -> nat {
    if len < KEYSIZES_TRIED {
        len
    } else {
        KEYSIZES_TRIED as nat
    }
}

/// Round trip of the repeating-key break: encrypt `plaintext` with `key`;
/// if the key's length is among the key lengths that the break tries, every
/// column has its key byte as unique best key, and no other length tried
/// gives a decryption that scores at least as high unless it is the
/// plaintext itself, then the key recovered for that length is `key` and the
/// break returns `plaintext`.
pub proof fn lemma_repeating_key_break_round_trip(
    m: Scorer,
    plaintext: Seq<u8>,
    key: Seq<u8>,
    ks: Seq<usize>,
    idx: nat,
)
    requires
        key.len() > 0,
        is_ranking(repeating_xor(plaintext, key), ks),
        idx < tried_count(ks.len()),
        ks[idx as int] == key.len(),
        forall|j: nat| j < key.len() ==> #[trigger] column_is_clear(m, plaintext, key, j),
        forall|t: nat|
            t < tried_count(ks.len()) ==> #[trigger] break_with_size(
                m,
                repeating_xor(plaintext, key),
                ks[t as int] as nat,
            ) == plaintext || m.beats(
                plaintext,
                break_with_size(m, repeating_xor(plaintext, key), ks[t as int] as nat),
            ),
    ensures
        recovered_key(m, repeating_xor(plaintext, key), key.len()) == key,
        best_break_upto(m, repeating_xor(plaintext, key), ks, (tried_count(ks.len()) - 1) as nat)
            == plaintext,
{
    let ct = repeating_xor(plaintext, key);
    lemma_break_with_size_recovers(m, plaintext, key);
    lemma_best_break_selects(m, ct, ks, (tried_count(ks.len()) - 1) as nat, idx, plaintext);
}

} // verus!
