//! Estimating the length of a repeating XOR key from the bit distance
//! between consecutive blocks of the ciphertext.
use vstd::prelude::*;
use crate::score::{Score, lemma_ratio_lt_le_trans, ratio_eq, ratio_lt};
use crate::xor::{bit_distance, edit_distance};

verus! {

/// Key lengths are tried from this one up.
pub const MIN_KEYSIZE: usize = 2;

/// Key lengths are tried below this one.
pub const MAX_KEYSIZE: usize = 40;

/// Block `i` of `s` cut into blocks of `k` bytes.
pub open spec fn block(s: Seq<u8>, k: nat, i: nat) -> Seq<u8> {
    s.subrange((i * k) as int, ((i + 1) * k) as int)
}

/// Whether three whole blocks of `k` bytes fit in a text of `len` bytes.
pub open spec fn three_blocks_fit(len: nat, k: nat) -> bool {
    3 * k <= len
}

/// The summed bit distance between the blocks that the score of key length
/// `k` compares: the three pairs among the first three blocks where they fit,
/// else the first two blocks.
pub open spec fn keysize_distance(s: Seq<u8>, k: nat) -> nat {
    if three_blocks_fit(s.len(), k) {
        bit_distance(block(s, k, 0), block(s, k, 1)) + bit_distance(block(s, k, 1), block(s, k, 2))
            + bit_distance(block(s, k, 0), block(s, k, 2))
    } else {
        bit_distance(block(s, k, 0), block(s, k, 1))
    }
}

/// The divisor of `keysize_distance`: the key length times the number of
/// block pairs compared.
pub open spec fn keysize_denom(s: Seq<u8>, k: nat) -> nat {
    if three_blocks_fit(s.len(), k) {
        3 * k
    } else {
        k
    }
}

/// Whether `k` is a key length worth trying on a ciphertext of `len` bytes:
/// in range, with room for two whole blocks.
pub open spec fn is_candidate(len: nat, k: nat) -> bool {
    MIN_KEYSIZE <= k < MAX_KEYSIZE && 2 * k <= len
}

/// Whether key length `a` ranks before key length `b` on `s`: a lower
/// normalized distance, or an equal one and a shorter length.
pub open spec fn ranks_before(s: Seq<u8>, a: nat, b: nat) -> bool {
    ratio_lt(keysize_distance(s, a), keysize_denom(s, a), keysize_distance(s, b), keysize_denom(s, b))
        || (ratio_eq(
        keysize_distance(s, a),
        keysize_denom(s, a),
        keysize_distance(s, b),
        keysize_denom(s, b),
    ) && a < b)
}

/// Whether `ks` lists every candidate key length of `s` once, best first.
pub open spec fn is_ranking(s: Seq<u8>, ks: Seq<usize>) -> bool {
    &&& forall|i: int| 0 <= i < ks.len() ==> is_candidate(s.len(), #[trigger] ks[i] as nat)
    &&& forall|k: nat| is_candidate(s.len(), k) ==> #[trigger] ks.contains(k as usize)
    &&& is_ranked(s, ks)
}

/// The normalized bit distance between consecutive blocks of `keysize`
/// bytes: the average over the pairs among the first three blocks, or the
/// first two where three do not fit, divided by `keysize`.
pub fn keysize_score(ciphertext: &[u8], keysize: usize) -> (r: Score)
    requires
        keysize > 0,
        2 * keysize <= ciphertext@.len(),
        8 * keysize <= u32::MAX,
    ensures
        r.numer() == keysize_distance(ciphertext@, keysize as nat),
        r.denom() == keysize_denom(ciphertext@, keysize as nat),
{
    let first = slice_range(ciphertext, 0, keysize);
    let second = slice_range(ciphertext, keysize, 2 * keysize);
    let d01 = edit_distance(first, second);
    assert(0 * (keysize as nat) == 0 && 1 * (keysize as nat) == keysize && (1 + 1) * (keysize as nat)
        == 2 * keysize && (2 + 1) * (keysize as nat) == 3 * keysize) by (nonlinear_arith);
    if ciphertext.len() - 2 * keysize >= keysize {
        let third = slice_range(ciphertext, 2 * keysize, 3 * keysize);
        let d12 = edit_distance(second, third);
        let d02 = edit_distance(first, third);
        assert(block(ciphertext@, keysize as nat, 0) == first@);
        assert(block(ciphertext@, keysize as nat, 1) == second@);
        assert(block(ciphertext@, keysize as nat, 2) == third@);
        Score::new(d01 as u128 + d12 as u128 + d02 as u128, 3 * keysize)
    } else {
        assert(block(ciphertext@, keysize as nat, 0) == first@);
        assert(block(ciphertext@, keysize as nat, 1) == second@);
        Score::new(d01 as u128, keysize)
    }
}

/// The candidate key lengths of `ciphertext`, best first: ordered by
/// `keysize_score`, and by length among equal scores. Empty when the
/// ciphertext is shorter than two blocks of the smallest length.
pub fn best_keysizes(ciphertext: &[u8]) -> (r: Vec<usize>)
    ensures
        is_ranking(ciphertext@, r@),
{
    let ghost s = ciphertext@;
    let mut ranked: Vec<usize> = Vec::new();
    let mut scores: Vec<Score> = Vec::new();
    let mut k: usize = MIN_KEYSIZE;
    while k < MAX_KEYSIZE && k <= ciphertext.len() / 2
        invariant
            s == ciphertext@,
            MIN_KEYSIZE <= k <= MAX_KEYSIZE,
            scores@.len() == ranked@.len(),
            forall|i: int|
                0 <= i < ranked@.len() ==> is_candidate(s.len(), #[trigger] ranked@[i] as nat)
                    && ranked@[i] < k,
            forall|c: nat| is_candidate(s.len(), c) && c < k ==> #[trigger] ranked@.contains(
                c as usize,
            ),
            forall|i: int, j: int|
                0 <= i < j < ranked@.len() ==> ranks_before(
                    s,
                    #[trigger] ranked@[i] as nat,
                    #[trigger] ranked@[j] as nat,
                ),
            forall|i: int|
                0 <= i < ranked@.len() ==> #[trigger] scores@[i].numer() == keysize_distance(
                    s,
                    ranked@[i] as nat,
                ) && scores@[i].denom() == keysize_denom(s, ranked@[i] as nat),
        decreases MAX_KEYSIZE - k,
    {
        let score = keysize_score(ciphertext, k);
        let mut pos: usize = 0;
        while pos < ranked.len() && !score.less_than(&scores[pos])
            invariant
                pos <= ranked@.len(),
                scores@.len() == ranked@.len(),
                forall|t: int|
                    0 <= t < pos ==> !ratio_lt(
                        score.numer(),
                        score.denom(),
                        #[trigger] scores@[t].numer(),
                        scores@[t].denom(),
                    ),
            decreases ranked@.len() - pos,
        {
            pos = pos + 1;
        }
        let ghost old_ranked = ranked@;
        let ghost old_scores = scores@;
        proof {
            assert forall|t: int| 0 <= t < pos implies !ratio_lt(
                keysize_distance(s, k as nat),
                keysize_denom(s, k as nat),
                keysize_distance(s, #[trigger] old_ranked[t] as nat),
                keysize_denom(s, old_ranked[t] as nat),
            ) by {
                assert(scores@[t].numer() == keysize_distance(s, old_ranked[t] as nat));
            }
            if pos < ranked.len() {
                assert(scores@[pos as int].numer() == keysize_distance(
                    s,
                    old_ranked[pos as int] as nat,
                ));
            }
            lemma_insert_keeps_order(s, old_ranked, pos as int, k);
        }
        ranked.insert(pos, k);
        scores.insert(pos, score);
        proof {
            assert forall|c: nat| is_candidate(s.len(), c) && c < k + 1 implies #[trigger] ranked@.contains(
                c as usize,
            ) by {
                if c < k {
                    assert(old_ranked.contains(c as usize));
                    let t = choose|t: int| 0 <= t < old_ranked.len() && old_ranked[t] == c as usize;
                    if t < pos {
                        assert(ranked@[t] == c as usize);
                    } else {
                        assert(ranked@[t + 1] == c as usize);
                    }
                } else {
                    assert(ranked@[pos as int] == c as usize);
                }
            }
            assert forall|i: int|
                0 <= i < ranked@.len() implies #[trigger] scores@[i].numer() == keysize_distance(
                s,
                ranked@[i] as nat,
            ) && scores@[i].denom() == keysize_denom(s, ranked@[i] as nat) by {
                if i > pos {
                    assert(ranked@[i] == old_ranked[i - 1] && scores@[i] == old_scores[i - 1]);
                    assert(old_scores[i - 1].numer() == keysize_distance(s, old_ranked[i - 1] as nat));
                } else if i < pos {
                    assert(ranked@[i] == old_ranked[i] && scores@[i] == old_scores[i]);
                    assert(old_scores[i].numer() == keysize_distance(s, old_ranked[i] as nat));
                }
            }
        }
        k = k + 1;
    }
    ranked
}

proof fn lemma_insert_keeps_order(s: Seq<u8>, ks: Seq<usize>, pos: int, k: usize)
    requires
        0 <= pos <= ks.len(),
        k > 0,
        forall|i: int| 0 <= i < ks.len() ==> 0 < #[trigger] ks[i] < k,
        forall|i: int, j: int|
            0 <= i < j < ks.len() ==> ranks_before(s, #[trigger] ks[i] as nat, #[trigger] ks[j] as nat),
        forall|t: int|
            0 <= t < pos ==> !ratio_lt(
                keysize_distance(s, k as nat),
                keysize_denom(s, k as nat),
                keysize_distance(s, #[trigger] ks[t] as nat),
                keysize_denom(s, ks[t] as nat),
            ),
        pos < ks.len() ==> ratio_lt(
            keysize_distance(s, k as nat),
            keysize_denom(s, k as nat),
            keysize_distance(s, ks[pos] as nat),
            keysize_denom(s, ks[pos] as nat),
        ),
    ensures
        forall|i: int, j: int|
            0 <= i < j < ks.len() + 1 ==> ranks_before(
                s,
                #[trigger] ks.insert(pos, k)[i] as nat,
                #[trigger] ks.insert(pos, k)[j] as nat,
            ),
{
    let ns = ks.insert(pos, k);
    assert forall|a: int, b: int| 0 <= a < b < ks.len() + 1 implies ranks_before(
        s,
        #[trigger] ns[a] as nat,
        #[trigger] ns[b] as nat,
    ) by {
        if b < pos {
            assert(ns[a] == ks[a] && ns[b] == ks[b]);
        } else if b == pos {
            assert(ns[a] == ks[a] && ns[b] == k);
        } else if a < pos {
            assert(ns[a] == ks[a] && ns[b] == ks[b - 1]);
        } else if a == pos {
            assert(ns[a] == k && ns[b] == ks[b - 1]);
            let p = ks[pos] as nat;
            let q = ks[b - 1] as nat;
            if b - 1 > pos {
                assert(ranks_before(s, p, q));
                lemma_ratio_lt_le_trans(
                    keysize_distance(s, k as nat),
                    keysize_denom(s, k as nat),
                    keysize_distance(s, p),
                    keysize_denom(s, p),
                    keysize_distance(s, q),
                    keysize_denom(s, q),
                );
            }
        } else {
            assert(ns[a] == ks[a - 1] && ns[b] == ks[b - 1]);
        }
    }
}

/// Whether `ks` is strictly ordered by `ranks_before` on `s`.
pub open spec fn is_ranked(s: Seq<u8>, ks: Seq<usize>) -> bool {
    forall|i: int, j: int|
        0 <= i < j < ks.len() ==> ranks_before(s, #[trigger] ks[i] as nat, #[trigger] ks[j] as nat)
}

proof fn lemma_ranks_before_strict(s: Seq<u8>, x: nat, y: nat)
    ensures
        !ranks_before(s, x, x),
        !(ranks_before(s, x, y) && ranks_before(s, y, x)),
{
}

proof fn lemma_ranked_unique(s: Seq<u8>, a: Seq<usize>, b: Seq<usize>)
    requires
        is_ranked(s, a),
        is_ranked(s, b),
        forall|x: usize| a.contains(x) <==> b.contains(x),
    ensures
        a == b,
    decreases a.len(),
{
    if a.len() == 0 {
        if b.len() > 0 {
            assert(b.contains(b[0]));
        }
        assert(a =~= b);
    } else {
        assert(a.contains(a[0]));
        let j = choose|j: int| 0 <= j < b.len() && b[j] == a[0];
        assert(b.contains(b[0]));
        let i = choose|i: int| 0 <= i < a.len() && a[i] == b[0];
        if a[0] != b[0] {
            assert(j > 0 && i > 0);
            assert(ranks_before(s, b[0] as nat, b[j] as nat));
            assert(ranks_before(s, a[0] as nat, a[i] as nat));
            lemma_ranks_before_strict(s, a[0] as nat, b[0] as nat);
        }
        let a1 = a.drop_first();
        let b1 = b.drop_first();
        assert forall|x: usize| a1.contains(x) <==> b1.contains(x) by {
            if a1.contains(x) {
                let t = choose|t: int| 0 <= t < a1.len() && a1[t] == x;
                assert(a[t + 1] == x);
                assert(ranks_before(s, a[0] as nat, a[t + 1] as nat));
                lemma_ranks_before_strict(s, a[0] as nat, a[0] as nat);
                assert(a.contains(x));
                let u = choose|u: int| 0 <= u < b.len() && b[u] == x;
                assert(u != 0);
                assert(b1[u - 1] == x);
            }
            if b1.contains(x) {
                let t = choose|t: int| 0 <= t < b1.len() && b1[t] == x;
                assert(b[t + 1] == x);
                assert(ranks_before(s, b[0] as nat, b[t + 1] as nat));
                lemma_ranks_before_strict(s, b[0] as nat, b[0] as nat);
                assert(b.contains(x));
                let u = choose|u: int| 0 <= u < a.len() && a[u] == x;
                assert(u != 0);
                assert(a1[u - 1] == x);
            }
        }
        assert forall|p: int, q: int| 0 <= p < q < a1.len() implies ranks_before(
            s,
            #[trigger] a1[p] as nat,
            #[trigger] a1[q] as nat,
        ) by {
            assert(a1[p] == a[p + 1] && a1[q] == a[q + 1]);
        }
        assert forall|p: int, q: int| 0 <= p < q < b1.len() implies ranks_before(
            s,
            #[trigger] b1[p] as nat,
            #[trigger] b1[q] as nat,
        ) by {
            assert(b1[p] == b[p + 1] && b1[q] == b[q + 1]);
        }
        lemma_ranked_unique(s, a1, b1);
        assert forall|t: int| 0 <= t < a.len() implies a[t] == b[t] by {
            if t > 0 {
                assert(a[t] == a1[t - 1] && b[t] == b1[t - 1]);
            }
        }
        assert(a =~= b);
    }
}

/// A ciphertext has a single ranking of its candidate key lengths.
pub proof fn lemma_ranking_unique(s: Seq<u8>, a: Seq<usize>, b: Seq<usize>)
    requires
        is_ranking(s, a),
        is_ranking(s, b),
    ensures
        a == b,
{
    assert forall|x: usize| a.contains(x) <==> b.contains(x) by {
        if a.contains(x) {
            let i = choose|i: int| 0 <= i < a.len() && a[i] == x;
            assert(is_candidate(s.len(), a[i] as nat));
            assert(b.contains((x as nat) as usize));
        }
        if b.contains(x) {
            let i = choose|i: int| 0 <= i < b.len() && b[i] == x;
            assert(is_candidate(s.len(), b[i] as nat));
            assert(a.contains((x as nat) as usize));
        }
    }
    lemma_ranked_unique(s, a, b);
}

/// The bytes of `s` from `start` up to `end`.
fn slice_range(s: &[u8], start: usize, end: usize) -> (r: &[u8])
    requires
        start <= end <= s@.len(),
    ensures
        r@ == s@.subrange(start as int, end as int),
{
    vstd::slice::slice_subrange(s, start, end)
}

} // verus!
