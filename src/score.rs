//! Plausibility of byte strings as natural-language text under a byte
//! frequency model built from a reference corpus.
use vstd::prelude::*;

verus! {

/// Number of times `c` occurs in `s`.
pub open spec fn occurrences(s: Seq<u8>, c: u8) -> nat
    decreases s.len(),
{
    if s.len() == 0 {
        0
    } else {
        occurrences(s.drop_last(), c) + if s.last() == c {
            1nat
        } else {
            0nat
        }
    }
}

pub proof fn lemma_occurrences_bounded(s: Seq<u8>, c: u8)
    ensures
        occurrences(s, c) <= s.len(),
    decreases s.len(),
{
    if s.len() > 0 {
        lemma_occurrences_bounded(s.drop_last(), c);
    }
}

/// The denominator of a score: the length of the text, or one for the empty
/// text, whose score is zero.
pub open spec fn denom_of(len: nat) -> nat {
    if len == 0 {
        1
    } else {
        len
    }
}

/// `a / b < c / d` for positive `b` and `d`.
pub open spec fn ratio_lt(a: nat, b: nat, c: nat, d: nat) -> bool {
    a * d < c * b
}

/// `a / b == c / d` for positive `b` and `d`.
pub open spec fn ratio_eq(a: nat, b: nat, c: nat, d: nat) -> bool {
    a * d == c * b
}

/// `a/b < c/d <= e/f` gives `a/b < e/f` for positive denominators.
pub proof fn lemma_ratio_lt_le_trans(a: nat, b: nat, c: nat, d: nat, e: nat, f: nat)
    requires
        b > 0,
        d > 0,
        f > 0,
        ratio_lt(a, b, c, d),
        ratio_lt(c, d, e, f) || ratio_eq(c, d, e, f),
    ensures
        ratio_lt(a, b, e, f),
{
    let (a, b, c, d, e, f) = (a as int, b as int, c as int, d as int, e as int, f as int);
    vstd::arithmetic::mul::lemma_mul_strict_inequality(a * d, c * b, f);
    vstd::arithmetic::mul::lemma_mul_inequality(c * f, e * d, b);
    assert(c * b * f == c * f * b) by (nonlinear_arith);
    assert(a * d * f == a * f * d) by (nonlinear_arith);
    assert(e * d * b == e * b * d) by (nonlinear_arith);
    if a * f >= e * b {
        vstd::arithmetic::mul::lemma_mul_inequality(e * b, a * f, d);
    }
}

/// An exact non-negative rational number, `numerator / denominator`.
///
/// Scores compare by value: `3/2` and `6/4` are equal.
#[derive(Debug, Clone, Copy)]
pub struct Score {
    numerator: u128,
    denominator: usize,
}

impl Score {
    #[verifier::type_invariant]
    spec fn inv(self) -> bool {
        self.denominator > 0
    }

    pub closed spec fn numer(self) -> nat {
        self.numerator as nat
    }

    pub closed spec fn denom(self) -> nat {
        self.denominator as nat
    }

    /// The score `numerator / denominator`.
    pub fn new(numerator: u128, denominator: usize) -> (r: Score)
        requires
            denominator > 0,
        ensures
            r.numer() == numerator,
            r.denom() == denominator,
    {
        Score { numerator, denominator }
    }

    pub fn numerator(&self) -> (r: u128)
        ensures
            r == self.numer(),
    {
        self.numerator
    }

    pub fn denominator(&self) -> (r: usize)
        ensures
            r == self.denom(),
            r > 0,
    {
        proof {
            use_type_invariant(self);
        }
        self.denominator
    }

    /// Whether `self` is strictly smaller than `other`.
    pub fn less_than(&self, other: &Score) -> (r: bool)
        ensures
            r == ratio_lt(self.numer(), self.denom(), other.numer(), other.denom()),
    {
        proof {
            use_type_invariant(self);
            use_type_invariant(other);
        }
        ratio_compare(self.numerator, self.denominator, other.numerator, other.denominator) < 0
    }
}

impl PartialEq for Score {
    fn eq(&self, other: &Score) -> (r: bool) {
        proof {
            use_type_invariant(self);
            use_type_invariant(other);
        }
        ratio_compare(self.numerator, self.denominator, other.numerator, other.denominator) == 0
    }
}

impl vstd::std_specs::cmp::PartialEqSpecImpl for Score {
    open spec fn obeys_eq_spec() -> bool {
        true
    }

    open spec fn eq_spec(&self, other: &Score) -> bool {
        ratio_eq(self.numer(), self.denom(), other.numer(), other.denom())
    }
}

impl Eq for Score {
}

impl PartialOrd for Score {
    fn partial_cmp(&self, other: &Score) -> (r: Option<core::cmp::Ordering>) {
        proof {
            use_type_invariant(self);
            use_type_invariant(other);
        }
        let c = ratio_compare(self.numerator, self.denominator, other.numerator, other.denominator);
        if c < 0 {
            Some(core::cmp::Ordering::Less)
        } else if c == 0 {
            Some(core::cmp::Ordering::Equal)
        } else {
            Some(core::cmp::Ordering::Greater)
        }
    }
}

impl vstd::std_specs::cmp::PartialOrdSpecImpl for Score {
    open spec fn obeys_partial_cmp_spec() -> bool {
        true
    }

    open spec fn partial_cmp_spec(&self, other: &Score) -> Option<core::cmp::Ordering> {
        if ratio_lt(self.numer(), self.denom(), other.numer(), other.denom()) {
            Some(core::cmp::Ordering::Less)
        } else if ratio_eq(self.numer(), self.denom(), other.numer(), other.denom()) {
            Some(core::cmp::Ordering::Equal)
        } else {
            Some(core::cmp::Ordering::Greater)
        }
    }
}

proof fn lemma_quotient_order(n1: nat, d1: nat, n2: nat, d2: nat)
    requires
        d1 > 0,
        d2 > 0,
        n1 / d1 < n2 / d2,
    ensures
        n1 * d2 < n2 * d1,
{
    let q1 = n1 / d1;
    let r1 = n1 % d1;
    let q2 = n2 / d2;
    let r2 = n2 % d2;
    assert(n1 == q1 * d1 + r1 && r1 < d1) by (nonlinear_arith)
        requires
            d1 > 0,
            q1 == n1 / d1,
            r1 == n1 % d1,
    ;
    assert(n2 == q2 * d2 + r2) by (nonlinear_arith)
        requires
            d2 > 0,
            q2 == n2 / d2,
            r2 == n2 % d2,
    ;
    assert(n1 * d2 < n2 * d1) by (nonlinear_arith)
        requires
            n1 == q1 * d1 + r1,
            r1 < d1,
            n2 == q2 * d2 + r2,
            q1 + 1 <= q2,
            d1 > 0,
            d2 > 0,
    ;
}

proof fn lemma_same_quotient(n1: nat, d1: nat, n2: nat, d2: nat)
    requires
        d1 > 0,
        d2 > 0,
        n1 / d1 == n2 / d2,
    ensures
        n1 * d2 < n2 * d1 <==> (n1 % d1) * d2 < (n2 % d2) * d1,
        n1 * d2 == n2 * d1 <==> (n1 % d1) * d2 == (n2 % d2) * d1,
{
    let q = n1 / d1;
    let r1 = n1 % d1;
    let r2 = n2 % d2;
    assert(n1 == q * d1 + r1) by (nonlinear_arith)
        requires
            d1 > 0,
            q == n1 / d1,
            r1 == n1 % d1,
    ;
    assert(n2 == q * d2 + r2) by (nonlinear_arith)
        requires
            d2 > 0,
            q == n2 / d2,
            r2 == n2 % d2,
    ;
    assert(n1 * d2 - n2 * d1 == r1 * d2 - r2 * d1) by (nonlinear_arith)
        requires
            n1 == q * d1 + r1,
            n2 == q * d2 + r2,
    ;
}

/// Compares `n1 / d1` with `n2 / d2` exactly, without overflow: `-1`, `0` or
/// `1` as the first is smaller, equal or greater.
fn ratio_compare(n1: u128, d1: usize, n2: u128, d2: usize) -> (r: i8)
    requires
        d1 > 0,
        d2 > 0,
    ensures
        r == -1 || r == 0 || r == 1,
        r < 0 <==> ratio_lt(n1 as nat, d1 as nat, n2 as nat, d2 as nat),
        r == 0 <==> ratio_eq(n1 as nat, d1 as nat, n2 as nat, d2 as nat),
{
    let q1 = n1 / (d1 as u128);
    let r1 = n1 % (d1 as u128);
    let q2 = n2 / (d2 as u128);
    let r2 = n2 % (d2 as u128);
    if q1 < q2 {
        proof {
            lemma_quotient_order(n1 as nat, d1 as nat, n2 as nat, d2 as nat);
        }
        -1
    } else if q2 < q1 {
        proof {
            lemma_quotient_order(n2 as nat, d2 as nat, n1 as nat, d1 as nat);
        }
        1
    } else {
        proof {
            lemma_same_quotient(n1 as nat, d1 as nat, n2 as nat, d2 as nat);
            assert(r1 * d2 <= u128::MAX) by (nonlinear_arith)
                requires
                    r1 < d1,
                    d1 <= usize::MAX,
                    d2 <= usize::MAX,
                    usize::MAX <= u64::MAX,
            ;
            assert(r2 * d1 <= u128::MAX) by (nonlinear_arith)
                requires
                    r2 < d2,
                    d1 <= usize::MAX,
                    d2 <= usize::MAX,
                    usize::MAX <= u64::MAX,
            ;
        }
        let a = r1 * (d2 as u128);
        let b = r2 * (d1 as u128);
        if a < b {
            -1
        } else if a == b {
            0
        } else {
            1
        }
    }
}

/// A byte frequency model: how many times each byte occurs in a corpus.
pub struct Scorer {
    counts: Vec<usize>,
}

impl Scorer {
    #[verifier::type_invariant]
    spec fn inv(self) -> bool {
        self.counts@.len() == 256
    }

    /// The weight of byte `c`: its number of occurrences in the corpus.
    pub closed spec fn count(self, c: u8) -> nat {
        self.counts@[c as int] as nat
    }

    /// The sum of the weights of the bytes of `text`.
    pub open spec fn weight(self, text: Seq<u8>) -> nat
        decreases text.len(),
    {
        if text.len() == 0 {
            0
        } else {
            self.weight(text.drop_last()) + self.count(text.last())
        }
    }

    /// Whether `a` scores strictly higher than `b`.
    pub open spec fn beats(self, a: Seq<u8>, b: Seq<u8>) -> bool {
        ratio_lt(self.weight(b), denom_of(b.len()), self.weight(a), denom_of(a.len()))
    }

    /// Builds the model of `corpus`.
    pub fn new(corpus: &[u8]) -> (r: Scorer)
        ensures
            forall|c: u8| #[trigger] r.count(c) == occurrences(corpus@, c),
    {
        let counts = Self::build_counts(corpus);
        Scorer { counts }
    }

    fn build_counts(corpus: &[u8]) -> (r: Vec<usize>)
        ensures
            r@.len() == 256,
            forall|c: u8| #[trigger] r@[c as int] == occurrences(corpus@, c),
    {
        let mut counts: Vec<usize> = vec![0usize; 256];
        let mut i: usize = 0;
        while i < corpus.len()
            invariant
                i <= corpus@.len(),
                counts@.len() == 256,
                forall|c: u8| #[trigger]
                    counts@[c as int] == occurrences(corpus@.subrange(0, i as int), c),
            decreases corpus@.len() - i,
        {
            let b = corpus[i];
            proof {
                let prefix = corpus@.subrange(0, i as int);
                let next = corpus@.subrange(0, i + 1);
                assert(next.drop_last() =~= prefix);
                lemma_occurrences_bounded(prefix, b);
            }
            let old_count = counts[b as usize];
            counts[b as usize] = old_count + 1;
            i = i + 1;
        }
        assert(corpus@.subrange(0, corpus@.len() as int) =~= corpus@);
        counts
    }

    /// The score of `text`: the average weight of its bytes, or zero for the
    /// empty text.
    pub fn score(&self, text: &[u8]) -> (r: Score)
        ensures
            r.numer() == self.weight(text@),
            r.denom() == denom_of(text@.len()),
    {
        let total = self.total_count_in(text);
        if text.len() == 0 {
            Score::new(total, 1)
        } else {
            Score::new(total, text.len())
        }
    }

    fn total_count_in(&self, text: &[u8]) -> (r: u128)
        ensures
            r == self.weight(text@),
    {
        let mut total: u128 = 0;
        let mut i: usize = 0;
        while i < text.len()
            invariant
                i <= text@.len(),
                total == self.weight(text@.subrange(0, i as int)),
                total <= i * usize::MAX,
            decreases text@.len() - i,
        {
            let c = self.count_of(text[i]);
            proof {
                let next = text@.subrange(0, i + 1);
                assert(next.drop_last() =~= text@.subrange(0, i as int));
                assert(total + c <= (i + 1) * usize::MAX) by (nonlinear_arith)
                    requires
                        total <= i * usize::MAX,
                        c <= usize::MAX,
                ;
                assert((i + 1) * usize::MAX <= u128::MAX) by (nonlinear_arith)
                    requires
                        i < usize::MAX,
                        usize::MAX <= u64::MAX,
                ;
            }
            total = total + c as u128;
            i = i + 1;
        }
        assert(text@.subrange(0, text@.len() as int) =~= text@);
        total
    }

    fn count_of(&self, c: u8) -> (r: usize)
        ensures
            r == self.count(c),
    {
        proof {
            use_type_invariant(self);
        }
        self.counts[c as usize]
    }
}

/// The empty text scores zero under any model.
pub proof fn lemma_empty_text_scores_zero(m: Scorer)
    ensures
        m.weight(Seq::empty()) == 0,
        denom_of(0) == 1,
{
}

/// Every text scores zero under the model of an empty corpus.
pub proof fn lemma_empty_model_scores_zero(m: Scorer, text: Seq<u8>)
    requires
        forall|c: u8| #[trigger] m.count(c) == occurrences(Seq::empty(), c),
    ensures
        m.weight(text) == 0,
    decreases text.len(),
{
    if text.len() > 0 {
        lemma_empty_model_scores_zero(m, text.drop_last());
        assert(m.count(text.last()) == occurrences(Seq::empty(), text.last()));
    }
}

} // verus!
