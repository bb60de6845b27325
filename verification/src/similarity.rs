//! Similarity of two column-name lists: how many names of the first list have
//! a close fuzzy match in the second, as a fraction of the combined size.

use vstd::prelude::*;
use crate::model::Threshold;
use crate::text::texts;

verus! {

/// The IEEE 754 double-precision bit pattern of the Jaro-Winkler similarity
/// of two strings.
pub uninterp spec fn jaro_winkler_bits(a: Seq<char>, b: Seq<char>) -> u64;

/// `strsim::jaro_winkler`, with the score handed back as its bit pattern.
/// The score depends on the two character sequences alone.
#[verifier::external_body]
fn jaro_winkler_score(a: &str, b: &str) -> (bits: u64)
    ensures
        bits == jaro_winkler_bits(a@, b@),
{
    strsim::jaro_winkler(a, b).to_bits()
}

/// Bit pattern of the per-column cutoff, four fifths, as a double.
pub const COLUMN_MATCH_CUTOFF_BITS: u64 = 0x3FE9_9999_9999_999A;

/// Bit pattern of positive infinity as a double.
pub const POSITIVE_INFINITY_BITS: u64 = 0x7FF0_0000_0000_0000;

/// Whether the double with this bit pattern is strictly greater than the
/// per-column cutoff. Doubles with a clear sign bit order as their bit
/// patterns do; negative numbers and NaNs are never greater.
pub open spec fn exceeds_cutoff(bits: u64) -> bool {
    COLUMN_MATCH_CUTOFF_BITS < bits <= POSITIVE_INFINITY_BITS
}

/// Whether a similarity score, given by its bit pattern, counts as a match.
pub fn score_exceeds_cutoff(bits: u64) -> (r: bool)
    ensures
        r == exceeds_cutoff(bits),
{
    COLUMN_MATCH_CUTOFF_BITS < bits && bits <= POSITIVE_INFINITY_BITS
}

/// Whether `name` has a close match among `others`.
pub open spec fn has_close_match(name: Seq<char>, others: Seq<Seq<char>>) -> bool {
    exists|j: int|
        0 <= j < others.len() && exceeds_cutoff(#[trigger] jaro_winkler_bits(name, others[j]))
}

/// How many names of `left` (counted with repetition) have a close match in
/// `right`.
pub open spec fn matched_count(left: Seq<Seq<char>>, right: Seq<Seq<char>>) -> nat
    decreases left.len(),
{
    if left.len() == 0 {
        0
    } else {
        matched_count(left.drop_last(), right) + if has_close_match(left.last(), right) {
            1nat
        } else {
            0nat
        }
    }
}

/// A similarity as an exact fraction. It can exceed one: matches are
/// counted from the first list only.
#[derive(Clone, Copy, Debug)]
pub struct Similarity {
    numerator: u128,
    denominator: u128,
}

/// Whether the fraction `numerator / denominator` is at least the threshold.
pub open spec fn fraction_meets(numerator: int, denominator: int, level: Threshold) -> bool {
    numerator * level.den() >= level.num() * denominator
}

impl Similarity {
    #[verifier::type_invariant]
    spec fn well_formed(self) -> bool {
        0 < self.denominator <= 2 * u64::MAX && self.numerator <= u64::MAX
    }

    /// Numerator of the fraction.
    pub closed spec fn num(self) -> nat {
        self.numerator as nat
    }

    /// Denominator of the fraction; never zero.
    pub closed spec fn den(self) -> nat {
        self.denominator as nat
    }

    /// The fraction `numerator / denominator`, unless the denominator is zero.
    pub fn new(numerator: u64, denominator: u64) -> (r: Option<Similarity>)
        ensures
            r is Some <==> denominator > 0,
            r is Some ==> r->0.num() == numerator && r->0.den() == denominator,
    {
        if denominator > 0 {
            Some(Similarity { numerator: numerator as u128, denominator: denominator as u128 })
        } else {
            None
        }
    }

    pub fn numerator(&self) -> (r: u128)
        ensures
            r == self.num(),
    {
        self.numerator
    }

    pub fn denominator(&self) -> (r: u128)
        ensures
            r == self.den(),
            r > 0,
    {
        proof {
            use_type_invariant(self);
        }
        self.denominator
    }

    /// Whether this similarity is at least `level`.
    pub fn meets(&self, level: Threshold) -> (r: bool)
        ensures
            r == fraction_meets(self.num() as int, self.den() as int, level),
    {
        proof {
            use_type_invariant(self);
        }
        let n: u128 = level.numerator() as u128;
        let d: u128 = level.denominator() as u128;
        assert(self.numerator * d <= u64::MAX * u32::MAX) by (nonlinear_arith)
            requires
                self.numerator <= u64::MAX,
                d <= u32::MAX,
        ;
        assert(n * self.denominator <= u32::MAX * (2 * u64::MAX)) by (nonlinear_arith)
            requires
                self.denominator <= 2 * u64::MAX,
                n <= u32::MAX,
        ;
        self.numerator * d >= n * self.denominator
    }
}

/// The similarity of two column lists: one for two empty lists, zero when
/// exactly one is empty, otherwise the matched names of `left` over the size
/// of the two lists together less the matched names.
pub open spec fn set_similarity(left: Seq<Seq<char>>, right: Seq<Seq<char>>) -> (int, int) {
    if left.len() == 0 && right.len() == 0 {
        (1, 1)
    } else if left.len() == 0 || right.len() == 0 {
        (0, 1)
    } else {
        (
            matched_count(left, right) as int,
            left.len() + right.len() - matched_count(left, right),
        )
    }
}

/// Whether some name of `others` is a close match of `name`.
pub fn find_close_match(name: &str, others: &Vec<String>) -> (r: bool)
    ensures
        r == has_close_match(name@, texts(others@)),
{
    let mut j: usize = 0;
    while j < others.len()
        invariant
            j <= others.len(),
            forall|k: int|
                0 <= k < j ==> !exceeds_cutoff(
                    #[trigger] jaro_winkler_bits(name@, texts(others@)[k]),
                ),
        decreases others.len() - j,
    {
        let bits = jaro_winkler_score(name, others[j].as_str());
        if score_exceeds_cutoff(bits) {
            assert(exceeds_cutoff(jaro_winkler_bits(name@, texts(others@)[j as int])));
            return true;
        }
        j += 1;
    }
    false
}

/// Pairwise similarity of two column-name lists.
pub fn calculate_column_set_similarity(set1: &Vec<String>, set2: &Vec<String>) -> (r: Similarity)
    ensures
        (r.num() as int, r.den() as int) == set_similarity(texts(set1@), texts(set2@)),
{
    if set1.len() == 0 && set2.len() == 0 {
        return Similarity { numerator: 1, denominator: 1 };
    }
    if set1.len() == 0 || set2.len() == 0 {
        return Similarity { numerator: 0, denominator: 1 };
    }
    let mut matches: usize = 0;
    let mut i: usize = 0;
    assert(texts(set1@).take(0) =~= Seq::<Seq<char>>::empty());
    while i < set1.len()
        invariant
            i <= set1.len(),
            matches <= i,
            matches == matched_count(texts(set1@).take(i as int), texts(set2@)),
        decreases set1.len() - i,
    {
        let found = find_close_match(set1[i].as_str(), set2);
        proof {
            let now = texts(set1@).take(i + 1);
            assert(now.drop_last() =~= texts(set1@).take(i as int));
            assert(now.last() == set1@[i as int]@);
        }
        if found {
            matches += 1;
        }
        i += 1;
    }
    assert(texts(set1@).take(set1.len() as int) =~= texts(set1@));
    let matched: u128 = matches as u128;
    let total: u128 = set1.len() as u128 + set2.len() as u128 - matched;
    Similarity { numerator: matched, denominator: total }
}

} // verus!
