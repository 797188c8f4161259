use vstd::prelude::*;

verus! {

/// Kind of contradiction found between two memory entries.
#[derive(Debug, Clone, Copy, PartialEq, Eq, Structural)]
pub enum ContradictionType {
    NumericDifference,
    NegationDifference,
}

/// The matches, leftmost first and non-overlapping, that the regex crate finds
/// for `pattern` in `text`; `None` when the crate rejects the pattern.
pub uninterp spec fn regex_find_all(pattern: Seq<char>, text: Seq<char>) -> Option<Seq<Seq<char>>>;

/// Whether the regex crate finds a match of `pattern` in `text`; `None` when
/// the crate rejects the pattern.
pub uninterp spec fn regex_matches(pattern: Seq<char>, text: Seq<char>) -> Option<bool>;

pub open spec fn strings_view(v: Seq<String>) -> Seq<Seq<char>> {
    v.map_values(|s: String| s@)
}

/// Compiles `pattern` with `regex::Regex::new` and collects the text of every
/// match that `Regex::find_iter` yields on `text`. The contract claims only
/// that the result depends on the pattern and the text alone.
#[verifier::external_body]
fn regex_find_all_in(pattern: &str, text: &str) -> (r: Option<Vec<String>>)
    ensures
        match r {
            Some(v) => regex_find_all(pattern@, text@) == Some(strings_view(v@)),
            None => regex_find_all(pattern@, text@) is None,
        },
{
    match regex::Regex::new(pattern) {
        Ok(re) => Some(re.find_iter(text).map(|m| m.as_str().to_string()).collect()),
        Err(_) => None,
    }
}

/// Compiles `pattern` with `regex::Regex::new` and asks `Regex::is_match` on
/// `text`. The contract claims only that the result depends on the pattern and
/// the text alone.
#[verifier::external_body]
fn regex_is_match_in(pattern: &str, text: &str) -> (r: Option<bool>)
    ensures
        r == regex_matches(pattern@, text@),
{
    match regex::Regex::new(pattern) {
        Ok(re) => Some(re.is_match(text)),
        Err(_) => None,
    }
}

/// Integers and decimals: digits, an optional point, more digits.
pub const NUMBER_PATTERN: &'static str = r"\d+\.?\d*";

/// Japanese and English negation markers.
pub open spec fn negation_patterns() -> Seq<Seq<char>> {
    seq![
        "ない"@,
        "ません"@,
        "ず$"@,
        "ず[、。]"@,
        "ぬ$"@,
        "不[可能正確]"@,
        "非"@,
        "無[い理効]"@,
        r"(?i)\bnot\b"@,
        r"(?i)\bno\b"@,
        r"(?i)\bnever\b"@,
        r"(?i)\bnone\b"@,
        r"(?i)\bneither\b"@,
        r"(?i)n't\b"@,
    ]
}

fn negation_pattern_list() -> (v: Vec<&'static str>)
    ensures
        v@.map_values(|s: &str| s@) == negation_patterns(),
{
    let v = vec![
        "ない",
        "ません",
        "ず$",
        "ず[、。]",
        "ぬ$",
        "不[可能正確]",
        "非",
        "無[い理効]",
        r"(?i)\bnot\b",
        r"(?i)\bno\b",
        r"(?i)\bnever\b",
        r"(?i)\bnone\b",
        r"(?i)\bneither\b",
        r"(?i)n't\b",
    ];
    assert(v@.map_values(|s: &str| s@) =~= negation_patterns());
    v
}

/// The numbers found in `text` (none if the number pattern were rejected).
pub open spec fn numbers_in(text: Seq<char>) -> Seq<Seq<char>> {
    match regex_find_all(NUMBER_PATTERN@, text) {
        Some(m) => m,
        None => Seq::empty(),
    }
}

/// Whether some negation pattern matches `text`.
pub open spec fn negated(text: Seq<char>) -> bool {
    exists|i: int|
        0 <= i < negation_patterns().len() && regex_matches(#[trigger] negation_patterns()[i], text)
            == Some(true)
}

/// Number of times `x` occurs in `s`.
pub open spec fn count_of(s: Seq<Seq<char>>, x: Seq<char>) -> nat
    decreases s.len(),
{
    if s.len() == 0 {
        0
    } else {
        count_of(s.drop_last(), x) + if s.last() == x {
            1nat
        } else {
            0nat
        }
    }
}

/// `a` and `b` hold the same strings, each equally often (the same multiset).
pub open spec fn same_counts(a: Seq<Seq<char>>, b: Seq<Seq<char>>) -> bool {
    forall|x: Seq<char>| #[trigger] count_of(a, x) == count_of(b, x)
}

/// The contradiction between two texts with these numbers and negation flags:
/// numeric when both have numbers and they differ as multisets, otherwise a
/// negation difference when exactly one is negated.
pub open spec fn contradiction_of(
    nums_a: Seq<Seq<char>>,
    nums_b: Seq<Seq<char>>,
    neg_a: bool,
    neg_b: bool,
) -> Option<ContradictionType> {
    if nums_a.len() > 0 && nums_b.len() > 0 && !same_counts(nums_a, nums_b) {
        Some(ContradictionType::NumericDifference)
    } else if neg_a != neg_b {
        Some(ContradictionType::NegationDifference)
    } else {
        None
    }
}

proof fn lemma_count_absent(s: Seq<Seq<char>>, x: Seq<char>)
    requires
        forall|i: int| 0 <= i < s.len() ==> s[i] != x,
    ensures
        count_of(s, x) == 0,
    decreases s.len(),
{
    if s.len() > 0 {
        lemma_count_absent(s.drop_last(), x);
    }
}

/// Occurrences of `x` in `v`.
fn count_in(v: &Vec<String>, x: &String) -> (c: usize)
    ensures
        c == count_of(strings_view(v@), x@),
{
    let ghost s = strings_view(v@);
    let mut c: usize = 0;
    let mut i: usize = 0;
    while i < v.len()
        invariant
            s == strings_view(v@),
            i <= v.len(),
            c == count_of(s.take(i as int), x@),
            c <= i,
        decreases v.len() - i,
    {
        assert(s.take(i + 1).drop_last() =~= s.take(i as int));
        if v[i] == *x {
            c = c + 1;
        }
        i = i + 1;
    }
    assert(s.take(v.len() as int) =~= s);
    c
}

/// Whether every element of `a` occurs as often in `b` as in `a`.
fn counts_agree_on(a: &Vec<String>, b: &Vec<String>) -> (r: bool)
    ensures
        r == (forall|i: int|
            0 <= i < a@.len() ==> count_of(strings_view(a@), #[trigger] a@[i]@) == count_of(
                strings_view(b@),
                a@[i]@,
            )),
{
    let mut i: usize = 0;
    while i < a.len()
        invariant
            i <= a.len(),
            forall|k: int|
                0 <= k < i ==> count_of(strings_view(a@), #[trigger] a@[k]@) == count_of(
                    strings_view(b@),
                    a@[k]@,
                ),
        decreases a.len() - i,
    {
        if count_in(a, &a[i]) != count_in(b, &a[i]) {
            return false;
        }
        i = i + 1;
    }
    true
}

/// Whether `a` and `b` hold the same strings equally often.
pub fn same_numbers(a: &Vec<String>, b: &Vec<String>) -> (r: bool)
    ensures
        r == same_counts(strings_view(a@), strings_view(b@)),
{
    let ab = counts_agree_on(a, b);
    let ba = counts_agree_on(b, a);
    proof {
        let sa = strings_view(a@);
        let sb = strings_view(b@);
        if ab && ba {
            assert forall|x: Seq<char>| #[trigger] count_of(sa, x) == count_of(sb, x) by {
                if exists|i: int| 0 <= i < sa.len() && sa[i] == x {
                    let i = choose|i: int| 0 <= i < sa.len() && sa[i] == x;
                    assert(a@[i]@ == x);
                } else if exists|i: int| 0 <= i < sb.len() && sb[i] == x {
                    let i = choose|i: int| 0 <= i < sb.len() && sb[i] == x;
                    assert(b@[i]@ == x);
                } else {
                    lemma_count_absent(sa, x);
                    lemma_count_absent(sb, x);
                }
            }
        } else if !ab {
            let i = choose|i: int|
                0 <= i < a@.len() && count_of(sa, #[trigger] a@[i]@) != count_of(sb, a@[i]@);
            assert(count_of(sa, a@[i]@) != count_of(sb, a@[i]@));
        } else {
            let i = choose|i: int|
                0 <= i < b@.len() && count_of(sb, #[trigger] b@[i]@) != count_of(sa, b@[i]@);
            assert(count_of(sb, b@[i]@) != count_of(sa, b@[i]@));
        }
    }
    ab && ba
}

/// All numbers (integers and decimals) in `text`, in order.
pub fn extract_numbers(text: &str) -> (nums: Vec<String>)
    ensures
        strings_view(nums@) == numbers_in(text@),
{
    match regex_find_all_in(NUMBER_PATTERN, text) {
        Some(v) => v,
        None => {
            let v: Vec<String> = Vec::new();
            assert(strings_view(v@) =~= Seq::<Seq<char>>::empty());
            v
        },
    }
}

/// Whether `text` holds a Japanese or English negation.
pub fn has_negation(text: &str) -> (r: bool)
    ensures
        r == negated(text@),
{
    let patterns = negation_pattern_list();
    let mut i: usize = 0;
    while i < patterns.len()
        invariant
            patterns@.map_values(|s: &str| s@) == negation_patterns(),
            i <= patterns.len(),
            forall|k: int| 0 <= k < i ==> regex_matches(#[trigger] negation_patterns()[k], text@)
                != Some(true),
        decreases patterns.len() - i,
    {
        assert(patterns@[i as int]@ == negation_patterns()[i as int]);
        if let Some(true) = regex_is_match_in(patterns[i], text) {
            return true;
        }
        i = i + 1;
    }
    assert(patterns@.len() == negation_patterns().len());
    false
}

/// Decides the contradiction between two texts from their numbers and
/// negation flags.
pub fn classify_contradiction(
    nums_a: &Vec<String>,
    nums_b: &Vec<String>,
    neg_a: bool,
    neg_b: bool,
) -> (r: Option<ContradictionType>)
    ensures
        r == contradiction_of(strings_view(nums_a@), strings_view(nums_b@), neg_a, neg_b),
{
    if nums_a.len() > 0 && nums_b.len() > 0 && !same_numbers(nums_a, nums_b) {
        return Some(ContradictionType::NumericDifference);
    }
    if neg_a != neg_b {
        return Some(ContradictionType::NegationDifference);
    }
    None
}

/// Detects a contradiction between two texts: differing numbers first, then
/// a negation present in only one of them.
pub fn detect_contradiction(text_a: &str, text_b: &str) -> (r: Option<ContradictionType>)
    ensures
        r == contradiction_of(numbers_in(text_a@), numbers_in(text_b@), negated(text_a@), negated(text_b@)),
{
    let nums_a = extract_numbers(text_a);
    let nums_b = extract_numbers(text_b);
    let neg_a = has_negation(text_a);
    let neg_b = has_negation(text_b);
    classify_contradiction(&nums_a, &nums_b, neg_a, neg_b)
}

proof fn lemma_count_is_multiplicity(s: Seq<Seq<char>>, x: Seq<char>)
    ensures
        count_of(s, x) == s.to_multiset().count(x),
    decreases s.len(),
{
    broadcast use vstd::seq_lib::group_to_multiset_ensures;

    if s.len() == 0 {
        assert(s.to_multiset().len() == 0);
        assert(s.to_multiset() =~= vstd::multiset::Multiset::<Seq<char>>::empty());
    } else {
        let p = s.drop_last();
        lemma_count_is_multiplicity(p, x);
        assert(p.push(s.last()) =~= s);
        assert(s.to_multiset() =~= p.to_multiset().insert(s.last()));
    }
}

/// Two texts contradict each other numerically exactly when both hold numbers
/// and the numbers differ as multisets (some number occurs more often in one
/// than in the other). When either text has no number, or both hold the same
/// numbers, the verdict rests on negation alone: a negation difference when
/// exactly one text is negated, none otherwise.
pub proof fn lemma_contradiction_decided(
    nums_a: Seq<Seq<char>>,
    nums_b: Seq<Seq<char>>,
    neg_a: bool,
    neg_b: bool,
)
    ensures
        (contradiction_of(nums_a, nums_b, neg_a, neg_b) == Some(ContradictionType::NumericDifference))
            <==> (nums_a.len() > 0 && nums_b.len() > 0 && nums_a.to_multiset()
            != nums_b.to_multiset()),
        (nums_a.len() == 0 || nums_b.len() == 0 || nums_a.to_multiset() == nums_b.to_multiset())
            ==> contradiction_of(nums_a, nums_b, neg_a, neg_b) == if neg_a != neg_b {
            Some(ContradictionType::NegationDifference)
        } else {
            None
        },
{
    assert(same_counts(nums_a, nums_b) <==> nums_a.to_multiset() == nums_b.to_multiset()) by {
        if same_counts(nums_a, nums_b) {
            assert forall|x: Seq<char>| nums_a.to_multiset().count(x) == nums_b.to_multiset().count(x) by {
                lemma_count_is_multiplicity(nums_a, x);
                lemma_count_is_multiplicity(nums_b, x);
                assert(count_of(nums_a, x) == count_of(nums_b, x));
            }
            assert(nums_a.to_multiset() =~= nums_b.to_multiset());
        }
        if nums_a.to_multiset() == nums_b.to_multiset() {
            assert forall|x: Seq<char>| #[trigger] count_of(nums_a, x) == count_of(nums_b, x) by {
                lemma_count_is_multiplicity(nums_a, x);
                lemma_count_is_multiplicity(nums_b, x);
            }
        }
    }
}

/// Contradiction is symmetric: swapping the texts finds the same kind.
pub proof fn lemma_contradiction_symmetric(
    nums_a: Seq<Seq<char>>,
    nums_b: Seq<Seq<char>>,
    neg_a: bool,
    neg_b: bool,
)
    ensures
        contradiction_of(nums_a, nums_b, neg_a, neg_b) == contradiction_of(
            nums_b,
            nums_a,
            neg_b,
            neg_a,
        ),
{
}

/// A text never contradicts itself.
pub proof fn lemma_no_self_contradiction(nums: Seq<Seq<char>>, neg: bool)
    ensures
        contradiction_of(nums, nums, neg, neg) is None,
{
}

} // verus!
