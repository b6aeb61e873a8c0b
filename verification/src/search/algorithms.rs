//! Scoring algorithms used by the search index.

use vstd::prelude::*;
use vstd::string::StringSliceAdditionalSpecFns;

verus! {

/// True exactly for the ASCII capital letters.
pub open spec fn spec_is_uppercase(c: char) -> bool {
    'A' <= c && c <= 'Z'
}

/// True exactly for the ASCII small letters.
pub open spec fn spec_is_lowercase(c: char) -> bool {
    'a' <= c && c <= 'z'
}

/// True exactly for the ASCII letters and digits.
pub open spec fn spec_is_alphanumeric(c: char) -> bool {
    spec_is_uppercase(c) || spec_is_lowercase(c) || ('0' <= c && c <= '9')
}

/// Tells whether `c` is an ASCII capital letter.
#[inline]
pub fn is_uppercase(c: char) -> (r: bool)
    ensures
        r == spec_is_uppercase(c),
{
    'A' <= c && c <= 'Z'
}

/// Tells whether `c` is an ASCII small letter.
#[inline]
pub fn is_lowercase(c: char) -> (r: bool)
    ensures
        r == spec_is_lowercase(c),
{
    'a' <= c && c <= 'z'
}

/// Tells whether `c` is an ASCII letter or digit.
#[inline]
pub fn is_alphanumeric(c: char) -> (r: bool)
    ensures
        r == spec_is_alphanumeric(c),
{
    is_uppercase(c) || is_lowercase(c) || ('0' <= c && c <= '9')
}

/// Bonus for a matched character that starts a word or a camel-case hump.
pub const MATCH_BONUS: u64 = 2;

/// Bonus for a matched capital letter that follows a small letter.
pub const CAMEL_BONUS: u64 = 2;

/// Penalty for each character skipped before the first matched character.
pub const LEADING_LETTER_PENALTY: u64 = 3;

/// Largest total penalty for characters skipped before the first match.
pub const MAX_LEADING_LETTER_PENALTY: u64 = 9;

/// Penalty for each character skipped between two matched characters.
pub const UNMATCHED_LETTER_PENALTY: u64 = 1;

/// A match quality in `[0, 1]`, kept exactly as a fraction.
///
/// The value stands for `numerator / denominator`; a caller that wants a
/// floating-point number divides the two.
#[derive(Clone, Copy, Debug, PartialEq, Eq, Structural)]
pub struct Score {
    pub numerator: u64,
    pub denominator: u64,
}

impl Score {
    /// The fraction is well formed and lies in `[0, 1]`.
    pub open spec fn valid(self) -> bool {
        0 < self.denominator && self.numerator <= self.denominator
    }

    /// `self` is at least as good as `other`, as fractions.
    pub open spec fn at_least(self, other: Score) -> bool {
        self.numerator * other.denominator >= other.numerator * self.denominator
    }

    /// The perfect score, 1.
    pub open spec fn spec_perfect() -> Score {
        Score { numerator: 1, denominator: 1 }
    }

    /// The perfect score, 1.
    pub fn perfect() -> (r: Score)
        ensures
            r == Score::spec_perfect(),
            r.valid(),
    {
        Score { numerator: 1, denominator: 1 }
    }

    /// Compares two scores as fractions, exactly.
    pub fn is_at_least(&self, other: &Score) -> (r: bool)
        ensures
            r == self.at_least(*other),
    {
        assert(self.numerator * other.denominator <= u128::MAX && other.numerator
            * self.denominator <= u128::MAX) by (nonlinear_arith)
            requires
                self.numerator <= u64::MAX,
                self.denominator <= u64::MAX,
                other.numerator <= u64::MAX,
                other.denominator <= u64::MAX,
        ;
        let left: u128 = self.numerator as u128 * other.denominator as u128;
        let right: u128 = other.numerator as u128 * self.denominator as u128;
        left >= right
    }
}

/// The ASCII small letter for an ASCII capital letter, any other byte as it is.
pub open spec fn spec_fold_case(b: u8) -> u8 {
    if 0x41 <= b && b <= 0x5a {
        (b + 0x20) as u8
    } else {
        b
    }
}

/// Two bytes are the same character when ASCII case is ignored.
pub open spec fn spec_same_letter(a: u8, b: u8) -> bool {
    spec_fold_case(a) == spec_fold_case(b)
}

fn fold_case(b: u8) -> (r: u8)
    ensures
        r == spec_fold_case(b),
{
    if 0x41 <= b && b <= 0x5a {
        b + 0x20
    } else {
        b
    }
}

fn same_letter(a: u8, b: u8) -> (r: bool)
    ensures
        r == spec_same_letter(a, b),
{
    fold_case(a) == fold_case(b)
}

/// The first index at or after `from` where `text` holds `wanted` (case
/// ignored), or `text.len()` when there is none.
pub open spec fn first_match_from(text: Seq<u8>, wanted: u8, from: int) -> int
    decreases text.len() - from,
{
    if from < 0 || from >= text.len() {
        text.len() as int
    } else if spec_same_letter(text[from], wanted) {
        from
    } else {
        first_match_from(text, wanted, from + 1)
    }
}

/// The leftmost places in `text`, at or after `from`, at which the characters
/// `pattern[k..]` occur in order; `None` when they do not all occur.
pub open spec fn leftmost_embedding(text: Seq<u8>, pattern: Seq<u8>, k: int, from: int) -> Option<
    Seq<int>,
>
    decreases pattern.len() - k,
{
    if k < 0 || k >= pattern.len() {
        Some(Seq::empty())
    } else {
        let at = first_match_from(text, pattern[k], from);
        if at >= text.len() {
            None
        } else {
            match leftmost_embedding(text, pattern, k + 1, at + 1) {
                Some(rest) => Some(seq![at] + rest),
                None => None,
            }
        }
    }
}

/// `head` followed by `tail`, where there is a tail.
pub open spec fn prepend(head: Seq<int>, tail: Option<Seq<int>>) -> Option<Seq<int>> {
    match tail {
        Some(t) => Some(head + t),
        None => None,
    }
}

/// What the character at `at` earns for where it stands: the camel-case bonus
/// after a small letter, and the word-boundary bonus where exactly one of it
/// and its predecessor is a letter or digit.
pub open spec fn position_bonus(text: Seq<u8>, at: int) -> int {
    if at <= 0 || at >= text.len() {
        0
    } else {
        let prev = text[at - 1] as char;
        let cur = text[at] as char;
        (if spec_is_uppercase(cur) && spec_is_lowercase(prev) {
            CAMEL_BONUS as int
        } else {
            0
        }) + (if spec_is_alphanumeric(prev) != spec_is_alphanumeric(cur) {
            MATCH_BONUS as int
        } else {
            0
        })
    }
}

/// What the `k`-th matched character adds to the score: its position bonus,
/// and either the reward for an early first match or the penalty for the
/// characters skipped since the match before it.
pub open spec fn match_contribution(text: Seq<u8>, places: Seq<int>, k: int) -> int {
    position_bonus(text, places[k]) + (if k == 0 {
        text.len() - places[0]
    } else {
        -(UNMATCHED_LETTER_PENALTY as int) * (places[k] - places[k - 1] - 1)
    })
}

/// The sum of the contributions of the first `n` matched characters.
pub open spec fn matched_score(text: Seq<u8>, places: Seq<int>, n: int) -> int
    decreases n,
{
    if n <= 0 {
        0
    } else {
        matched_score(text, places, n - 1) + match_contribution(text, places, n - 1)
    }
}

/// The penalty for `skipped` characters before the first match.
pub open spec fn leading_penalty(skipped: int) -> int {
    if LEADING_LETTER_PENALTY * skipped > MAX_LEADING_LETTER_PENALTY {
        MAX_LEADING_LETTER_PENALTY as int
    } else {
        LEADING_LETTER_PENALTY * skipped
    }
}

/// The score of a match at `places` before it is brought into `[0, 1]`.
pub open spec fn raw_score(text: Seq<u8>, places: Seq<int>) -> int {
    matched_score(text, places, places.len() as int) - leading_penalty(places[0])
}

/// `raw` over `MATCH_BONUS * text_len`, cut off at 0 and at 1.
pub open spec fn normalized(raw: int, text_len: int) -> Score {
    let full = MATCH_BONUS * text_len;
    Score {
        numerator: (if raw < 0 {
            0
        } else if raw > full {
            full
        } else {
            raw
        }) as u64,
        denominator: full as u64,
    }
}

/// The score of `pattern` against `text`, both as bytes: 1 for the empty
/// pattern, nothing where `pattern` is no subsequence of `text`, and else the
/// normalized score of the leftmost match. A text longer than any string
/// can be in memory matches nothing.
pub open spec fn spec_fuzzy_match(text: Seq<u8>, pattern: Seq<u8>) -> Option<Score> {
    if pattern.len() == 0 {
        Some(Score::spec_perfect())
    } else if text.len() > isize::MAX {
        None
    } else {
        match leftmost_embedding(text, pattern, 0, 0) {
            Some(places) => Some(normalized(raw_score(text, places), text.len() as int)),
            None => None,
        }
    }
}

proof fn lemma_matched_score_prefix(text: Seq<u8>, places: Seq<int>, next: int, n: int)
    requires
        0 <= n <= places.len(),
    ensures
        matched_score(text, places.push(next), n) == matched_score(text, places, n),
    decreases n,
{
    if n > 0 {
        lemma_matched_score_prefix(text, places, next, n - 1);
        assert(places.push(next)[n - 1] == places[n - 1]);
        if n - 1 > 0 {
            assert(places.push(next)[n - 2] == places[n - 2]);
        }
    }
}

/// A leftmost embedding has one place for each character that was asked for,
/// each inside `text`, holding that character, and after the one before.
pub proof fn lemma_embedding_shape(text: Seq<u8>, pattern: Seq<u8>, k: int, from: int)
    requires
        0 <= k <= pattern.len(),
        0 <= from <= text.len(),
    ensures
        leftmost_embedding(text, pattern, k, from) matches Some(places) ==> {
            &&& places.len() == pattern.len() - k
            &&& forall|j: int| 0 <= j < places.len() ==> from + j <= #[trigger] places[j] < text.len()
            &&& forall|j: int|
                0 <= j < places.len() ==> spec_same_letter(
                    text[#[trigger] places[j]],
                    pattern[k + j],
                )
            &&& forall|j: int| 0 < j < places.len() ==> places[j - 1] < #[trigger] places[j]
            &&& pattern.len() - k <= text.len() - from
        },
    decreases pattern.len() - k,
{
    if k < pattern.len() {
        let at = first_match_from(text, pattern[k], from);
        lemma_first_match(text, pattern[k], from);
        if at < text.len() {
            lemma_embedding_shape(text, pattern, k + 1, at + 1);
            match leftmost_embedding(text, pattern, k + 1, at + 1) {
                Some(rest) => {
                    let places = seq![at] + rest;
                    assert(leftmost_embedding(text, pattern, k, from) == Some(places));
                    assert(places.len() == rest.len() + 1);
                    assert(places[0] == at);
                    assert forall|j: int| 0 <= j < places.len() implies from + j
                        <= #[trigger] places[j] < text.len() by {
                        if j > 0 {
                            assert(places[j] == rest[j - 1]);
                        }
                    }
                    assert forall|j: int| 0 <= j < places.len() implies spec_same_letter(
                        text[#[trigger] places[j]],
                        pattern[k + j],
                    ) by {
                        if j > 0 {
                            assert(places[j] == rest[j - 1]);
                        }
                    }
                    assert forall|j: int| 0 < j < places.len() implies places[j - 1]
                        < #[trigger] places[j] by {
                        assert(places[j] == rest[j - 1]);
                        if j > 1 {
                            assert(places[j - 1] == rest[j - 2]);
                        }
                    }
                },
                None => {},
            }
        }
    }
}

/// `first_match_from` names a match, and nothing before it matches.
pub proof fn lemma_first_match(text: Seq<u8>, wanted: u8, from: int)
    requires
        0 <= from,
    ensures
        from <= first_match_from(text, wanted, from) || text.len() < from,
        first_match_from(text, wanted, from) <= text.len(),
        first_match_from(text, wanted, from) < text.len() ==> spec_same_letter(
            text[first_match_from(text, wanted, from)],
            wanted,
        ),
        forall|j: int|
            from <= j < first_match_from(text, wanted, from) ==> !spec_same_letter(
                #[trigger] text[j],
                wanted,
            ),
    decreases text.len() - from,
{
    if from < text.len() && !spec_same_letter(text[from], wanted) {
        lemma_first_match(text, wanted, from + 1);
    }
}

/// `places` shows `pattern` as a subsequence of `text`, ASCII case ignored:
/// one place in `text` for each character of `pattern`, in rising order.
pub open spec fn is_embedding(text: Seq<u8>, pattern: Seq<u8>, places: Seq<int>) -> bool {
    &&& places.len() == pattern.len()
    &&& forall|j: int| 0 <= j < places.len() ==> 0 <= #[trigger] places[j] < text.len()
    &&& forall|j: int|
        0 <= j < places.len() ==> spec_same_letter(text[#[trigger] places[j]], pattern[j])
    &&& forall|j: int| 0 < j < places.len() ==> places[j - 1] < #[trigger] places[j]
}

/// `pattern` is a subsequence of `text`, ASCII case ignored.
pub open spec fn is_subsequence(text: Seq<u8>, pattern: Seq<u8>) -> bool {
    exists|places: Seq<int>| is_embedding(text, pattern, places)
}

proof fn lemma_leftmost_succeeds(
    text: Seq<u8>,
    pattern: Seq<u8>,
    witness: Seq<int>,
    k: int,
    from: int,
)
    requires
        is_embedding(text, pattern, witness),
        0 <= k <= pattern.len(),
        0 <= from,
        k < pattern.len() ==> from <= witness[k],
    ensures
        leftmost_embedding(text, pattern, k, from) is Some,
    decreases pattern.len() - k,
{
    if k < pattern.len() {
        let at = first_match_from(text, pattern[k], from);
        lemma_first_match(text, pattern[k], from);
        assert(spec_same_letter(text[witness[k]], pattern[k]));
        assert(at <= witness[k]);
        if k + 1 < pattern.len() {
            assert(witness[k + 1 - 1] < witness[k + 1]);
        }
        lemma_leftmost_succeeds(text, pattern, witness, k + 1, at + 1);
    }
}

/// A match is found exactly where the pattern is a subsequence of the text.
pub proof fn lemma_match_iff_subsequence(text: Seq<u8>, pattern: Seq<u8>)
    requires
        text.len() <= isize::MAX,
    ensures
        spec_fuzzy_match(text, pattern) is Some <==> is_subsequence(text, pattern),
{
    if pattern.len() == 0 {
        assert(is_embedding(text, pattern, Seq::<int>::empty()));
    } else {
        lemma_embedding_shape(text, pattern, 0, 0);
        match leftmost_embedding(text, pattern, 0, 0) {
            Some(places) => {
                assert(is_embedding(text, pattern, places));
            },
            None => {
                if is_subsequence(text, pattern) {
                    let witness = choose|places: Seq<int>| is_embedding(text, pattern, places);
                    lemma_leftmost_succeeds(text, pattern, witness, 0, 0);
                }
            },
        }
    }
}

/// Scores how well `pattern` matches `text` as a subsequence, ASCII case
/// ignored.
///
/// The empty pattern scores 1. A pattern that is no subsequence of `text`
/// gives `None`. Otherwise the leftmost match is scored: the first matched
/// character earns the number of characters from it to the end of the text,
/// each matched character earns its position bonus, each character skipped
/// between two matched characters costs one, and the characters before the
/// first match cost three each, nine at most. The sum is divided by twice the
/// length of the text and cut off at 0 and 1.
pub fn fuzzy_match(text: &str, pattern: &str) -> (r: Option<Score>)
    ensures
        r == spec_fuzzy_match(text.spec_bytes(), pattern.spec_bytes()),
        r matches Some(s) ==> s.valid(),
        pattern.spec_bytes().len() == 0 ==> r == Some(Score::spec_perfect()),
        pattern.spec_bytes().len() > text.spec_bytes().len() ==> r is None,
{
    let text_bytes = text.as_bytes();
    let pattern_bytes = pattern.as_bytes();
    let n = text_bytes.len();
    let m = pattern_bytes.len();
    if m == 0 {
        return Some(Score::perfect());
    }
    proof {
        lemma_embedding_shape(text_bytes@, pattern_bytes@, 0, 0);
    }
    if m > n || n > isize::MAX as usize {
        return None;
    }
    let mut score: i128 = 0;
    let mut k: usize = 0;
    let mut first: usize = 0;
    let mut last: usize = 0;
    let ghost mut places: Seq<int> = Seq::empty();
    let mut i: usize = 0;
    while i < n
        invariant
            n == text_bytes@.len(),
            m == pattern_bytes@.len(),
            n <= isize::MAX,
            0 < m,
            i <= n,
            k <= m,
            k <= i,
            places.len() == k,
            k > 0 ==> first == places[0] && last == places[k - 1] && last < i && first <= last,
            score == matched_score(text_bytes@, places, k as int),
            -(i as int) <= score <= n + 4 * k,
            k > 0 ==> score >= -(last - first),
            leftmost_embedding(text_bytes@, pattern_bytes@, 0, 0) == prepend(
                places,
                leftmost_embedding(text_bytes@, pattern_bytes@, k as int, i as int),
            ),
        decreases n - i,
    {
        if k < m && same_letter(text_bytes[i], pattern_bytes[k]) {
            let mut gain: i128 = 0;
            if k == 0 {
                first = i;
                gain = (n - i) as i128;
            } else {
                gain = -((i - last - 1) as i128);
            }
            if i > 0 {
                let prev = text_bytes[i - 1] as char;
                let cur = text_bytes[i] as char;
                if is_uppercase(cur) && is_lowercase(prev) {
                    gain = gain + CAMEL_BONUS as i128;
                }
                if is_alphanumeric(prev) != is_alphanumeric(cur) {
                    gain = gain + MATCH_BONUS as i128;
                }
            }
            proof {
                let grown = places.push(i as int);
                lemma_matched_score_prefix(text_bytes@, places, i as int, k as int);
                assert(grown[k as int] == i);
                if k > 0 {
                    assert(grown[k - 1] == places[k - 1]);
                }
                assert(gain == match_contribution(text_bytes@, grown, k as int));
                let tail = leftmost_embedding(text_bytes@, pattern_bytes@, k + 1, i + 1);
                assert(first_match_from(text_bytes@, pattern_bytes@[k as int], i as int) == i);
                match tail {
                    Some(rest) => {
                        assert(places + (seq![i as int] + rest) =~= grown + rest);
                    },
                    None => {},
                }
                places = grown;
            }
            score = score + gain;
            last = i;
            k = k + 1;
        } else {
            proof {
                if k < m {
                    assert(first_match_from(text_bytes@, pattern_bytes@[k as int], i as int)
                        == first_match_from(text_bytes@, pattern_bytes@[k as int], i + 1));
                }
            }
        }
        i = i + 1;
    }
    if k != m {
        proof {
            assert(first_match_from(text_bytes@, pattern_bytes@[k as int], n as int) == n);
        }
        return None;
    }
    proof {
        assert(places + Seq::<int>::empty() =~= places);
    }
    let penalty: i128 = if first > 3 {
        MAX_LEADING_LETTER_PENALTY as i128
    } else {
        (LEADING_LETTER_PENALTY * first as u64) as i128
    };
    let raw: i128 = score - penalty;
    let full: u64 = MATCH_BONUS * n as u64;
    let numerator: u64 = if raw < 0 {
        0
    } else if raw > full as i128 {
        full
    } else {
        raw as u64
    };
    Some(Score { numerator, denominator: full })
}

/// The bit pattern of the float 0.
pub const ZERO_BITS: u32 = 0;

/// The two vectors can be compared: neither is empty, and they have the
/// same number of components.
pub open spec fn comparable(a: Seq<u32>, b: Seq<u32>) -> bool {
    a.len() > 0 && a.len() == b.len()
}

/// `score` is a cosine similarity of `a` and `b` by the arithmetic of
/// `kernel`: 0 where the two cannot be compared, and else what `kernel`
/// may give for them.
pub open spec fn is_cosine<F: Fn(&[u32], &[u32]) -> u32>(
    kernel: F,
    a: Seq<u32>,
    b: Seq<u32>,
    score: u32,
) -> bool {
    if comparable(a, b) {
        exists|x: &[u32], y: &[u32]| x@ == a && y@ == b && kernel.ensures((x, y), score)
    } else {
        score == ZERO_BITS
    }
}

/// The cosine similarity of two vectors whose components are the bit
/// patterns of floats, as the bit pattern of a float.
///
/// For an empty vector and for vectors of different lengths the result is
/// 0, and `kernel` is not called. For all others `kernel` does the
/// arithmetic: it gives the dot product over the product of the norms, or
/// 0 where a norm is 0.
pub fn cosine_similarity<F>(a: &[u32], b: &[u32], kernel: F) -> (score: u32) where
    F: Fn(&[u32], &[u32]) -> u32,

    requires
        forall|x: &[u32], y: &[u32]|
            #![trigger kernel.requires((x, y))]
            comparable(x@, y@) ==> kernel.requires((x, y)),
    ensures
        is_cosine(kernel, a@, b@, score),
        !comparable(a@, b@) ==> score == ZERO_BITS,
{
    if a.len() == 0 || b.len() == 0 || a.len() != b.len() {
        return ZERO_BITS;
    }
    assert(comparable(a@, b@));
    kernel(a, b)
}

} // verus!
