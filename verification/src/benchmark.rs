use vstd::prelude::*;
use vstd::string::{StrSliceExecFns, StringSliceAdditionalSpecFns};
use vstd::utf8::encode_utf8;

verus! {

/// The lowercase form that `str::to_lowercase` gives of a text.
pub uninterp spec fn lowercase(text: Seq<char>) -> Seq<char>;

/// Lowercases with `str::to_lowercase`; the contract claims only that the
/// result depends on the text alone.
#[verifier::external_body]
fn to_lowercase(text: &str) -> (r: String)
    ensures
        r@ == lowercase(text@),
{
    text.to_lowercase()
}

/// How an answer compares with the expected one, ignoring case.
#[derive(Debug, Clone, Copy, PartialEq, Eq, Structural)]
pub enum AnswerMatch {
    /// The answer is the expected text.
    Exact,
    /// The answer contains the expected text; the UTF-8 lengths of both, in
    /// bytes, give the partial score.
    Contains { expected_bytes: usize, actual_bytes: usize },
    /// The answer does not contain the expected text.
    Miss,
}

/// Whether `needle` occurs in `hay` at position `i`.
pub open spec fn occurs_at(hay: Seq<char>, needle: Seq<char>, i: int) -> bool {
    0 <= i && i + needle.len() <= hay.len() && hay.subrange(i, i + needle.len()) == needle
}

/// Whether `needle` occurs in `hay`.
pub open spec fn contains_text(hay: Seq<char>, needle: Seq<char>) -> bool {
    exists|i: int| #[trigger] occurs_at(hay, needle, i)
}

/// The comparison of an answer with the expected one, after lowercasing both.
pub open spec fn answer_match(actual: Seq<char>, expected: Seq<char>) -> AnswerMatch {
    let a = lowercase(actual);
    let e = lowercase(expected);
    if a == e {
        AnswerMatch::Exact
    } else if contains_text(a, e) {
        AnswerMatch::Contains {
            expected_bytes: encode_utf8(e).len() as usize,
            actual_bytes: encode_utf8(a).len() as usize,
        }
    } else {
        AnswerMatch::Miss
    }
}

/// Whether `needle` occurs in `hay` at character position `i`.
fn matches_at(hay: &str, needle: &str, h: usize, i: usize) -> (b: bool)
    requires
        h == hay@.len(),
        i + needle@.len() <= hay@.len(),
    ensures
        b == occurs_at(hay@, needle@, i as int),
{
    let n = needle.unicode_len();
    let mut j: usize = 0;
    while j < n
        invariant
            n == needle@.len(),
            j <= n,
            i + n <= hay@.len(),
            h == hay@.len(),
            forall|k: int| 0 <= k < j ==> hay@[i + k] == needle@[k],
        decreases n - j,
    {
        if hay.get_char(i + j) != needle.get_char(j) {
            assert(hay@.subrange(i as int, i + n)[j as int] != needle@[j as int]);
            return false;
        }
        j = j + 1;
    }
    assert(hay@.subrange(i as int, i + n) =~= needle@);
    true
}

/// Whether `needle` occurs in `hay`.
fn find_text(hay: &str, needle: &str) -> (b: bool)
    ensures
        b == contains_text(hay@, needle@),
{
    let h = hay.unicode_len();
    let n = needle.unicode_len();
    if n > h {
        assert forall|i: int| !#[trigger] occurs_at(hay@, needle@, i) by {}
        return false;
    }
    let last = h - n;
    let mut i: usize = 0;
    loop
        invariant
            h == hay@.len(),
            n == needle@.len(),
            n <= h,
            last == h - n,
            i <= last,
            forall|k: int| 0 <= k < i ==> !#[trigger] occurs_at(hay@, needle@, k),
        ensures
            forall|k: int| 0 <= k <= last ==> !#[trigger] occurs_at(hay@, needle@, k),
        decreases last - i,
    {
        if matches_at(hay, needle, h, i) {
            return true;
        }
        if i == last {
            break;
        }
        i = i + 1;
    }
    assert forall|k: int| !#[trigger] occurs_at(hay@, needle@, k) by {
        if 0 <= k <= last {
        }
    }
    false
}

/// Compares an answer with the expected one, ignoring case: exact, containing
/// it, or neither.
pub fn match_answer(actual: &str, expected: &str) -> (m: AnswerMatch)
    ensures
        m == answer_match(actual@, expected@),
{
    let a = to_lowercase(actual);
    let e = to_lowercase(expected);
    if a == e {
        return AnswerMatch::Exact;
    }
    if find_text(a.as_str(), e.as_str()) {
        let expected_bytes = e.as_str().len();
        let actual_bytes = a.as_str().len();
        return AnswerMatch::Contains { expected_bytes, actual_bytes };
    }
    AnswerMatch::Miss
}

} // verus!
