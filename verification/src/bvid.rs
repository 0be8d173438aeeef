//! Finding a BV video identifier in user input.

use vstd::prelude::*;

verus! {

/// The characters that follow "BV" in an identifier: the digits 1 to 9 and
/// the Latin letters but 'I', 'O' and 'l'.
pub open spec fn is_bvid_char(c: char) -> bool {
    ||| ('1' <= c && c <= '9')
    ||| ('A' <= c && c <= 'H')
    ||| ('J' <= c && c <= 'N')
    ||| ('P' <= c && c <= 'Z')
    ||| ('a' <= c && c <= 'k')
    ||| ('m' <= c && c <= 'z')
}

/// The number of characters in a BV identifier.
pub open spec fn bvid_len() -> int {
    12
}

/// `s` holds a BV identifier at `i`: "BV" and ten identifier characters.
pub open spec fn bvid_at(s: Seq<char>, i: int) -> bool {
    &&& 0 <= i
    &&& i + bvid_len() <= s.len()
    &&& s[i] == 'B'
    &&& s[i + 1] == 'V'
    &&& forall|j: int| i + 2 <= j < i + bvid_len() ==> is_bvid_char(#[trigger] s[j])
}

/// The position of the leftmost identifier in `s` at or after `i`.
pub open spec fn first_bvid_from(s: Seq<char>, i: int) -> Option<int>
    decreases s.len() - i,
{
    if i < 0 || i + bvid_len() > s.len() {
        None
    } else if bvid_at(s, i) {
        Some(i)
    } else {
        first_bvid_from(s, i + 1)
    }
}

/// The leftmost identifier in `s`.
pub open spec fn first_bvid(s: Seq<char>) -> Option<Seq<char>> {
    match first_bvid_from(s, 0) {
        Some(i) => Some(s.subrange(i, i + bvid_len())),
        None => None,
    }
}

/// The regular expression of a BV identifier.
pub open spec fn bvid_pattern() -> Seq<char> {
    "BV[1-9A-HJ-NP-Za-km-z]{10}"@
}

/// Compiles `pattern` with `regex::Regex::new` and gives the text of its
/// first match in `haystack` (`Regex::find`, then `Match::as_str`). Only the
/// identifier pattern is admitted; regex documents that `find` gives the
/// leftmost-first match and that a class of ASCII ranges matches exactly the
/// characters in those ranges, so for this pattern of fixed length the match
/// is the leftmost window of "BV" and ten such characters.
#[verifier::external_body]
fn regex_first_match(pattern: &str, haystack: &str) -> (res: Option<String>)
    requires
        pattern@ == bvid_pattern(),
    ensures
        match first_bvid(haystack@) {
            None => res is None,
            Some(w) => res matches Some(m) && m@ == w,
        },
{
    regex::Regex::new(pattern).unwrap().find(haystack).map(|m| m.as_str().to_string())
}

/// The leftmost BV identifier in `input`, such as the one in a video's
/// address.
pub fn extract_bvid(input: &str) -> (res: Option<String>)
    ensures
        match first_bvid(input@) {
            None => res is None,
            Some(w) => res matches Some(m) && m@ == w,
        },
{
    regex_first_match("BV[1-9A-HJ-NP-Za-km-z]{10}", input)
}

/// The search from `k` finds an identifier at or after `k` with none
/// between `k` and it, or finds none because there is none at or after `k`.
pub proof fn lemma_first_bvid_from(s: Seq<char>, k: int)
    requires
        0 <= k,
    ensures
        first_bvid_from(s, k) matches Some(i) ==> k <= i && bvid_at(s, i) && forall|j: int|
            k <= j < i ==> !bvid_at(s, j),
        first_bvid_from(s, k) is None ==> forall|j: int| k <= j ==> !bvid_at(s, j),
    decreases s.len() - k,
{
    if k + bvid_len() <= s.len() && !bvid_at(s, k) {
        lemma_first_bvid_from(s, k + 1);
    }
}

/// What `extract_bvid` finds is an identifier that the input holds, and no
/// identifier starts before it; when it finds none, the input holds none.
pub proof fn lemma_extracted_bvid_is_leftmost(s: Seq<char>)
    ensures
        first_bvid(s) matches Some(w) ==> exists|i: int|
            bvid_at(s, i) && w == s.subrange(i, i + bvid_len()) && forall|j: int|
                0 <= j < i ==> !bvid_at(s, j),
        first_bvid(s) is None ==> forall|j: int| !bvid_at(s, j),
{
    lemma_first_bvid_from(s, 0);
    if let Some(i) = first_bvid_from(s, 0) {
        assert(bvid_at(s, i) && first_bvid(s) == Some(s.subrange(i, i + bvid_len())));
    }
}

/// `s` shows an identifier at `i`: "BV" and then ten ASCII digits or
/// letters, none of them '0', 'I', 'O' or 'l'.
pub open spec fn shows_identifier_at(s: Seq<char>, i: int) -> bool {
    &&& 0 <= i && i + 12 <= s.len()
    &&& s[i] == 'B' && s[i + 1] == 'V'
    &&& forall|j: int|
        i + 2 <= j < i + 12 ==> {
            let c = #[trigger] s[j];
            &&& ('0' <= c <= '9' || 'A' <= c <= 'Z' || 'a' <= c <= 'z')
            &&& c != '0' && c != 'I' && c != 'O' && c != 'l'
        }
}

/// What `extract_bvid` finds is the twelve characters of the leftmost
/// identifier that the input shows; it finds nothing exactly when the input
/// shows none.
pub proof fn lemma_extracted_bvid_shown(s: Seq<char>)
    ensures
        first_bvid(s) is None <==> forall|i: int| !shows_identifier_at(s, i),
        first_bvid(s) matches Some(w) ==> exists|i: int|
            {
                &&& shows_identifier_at(s, i)
                &&& w == s.subrange(i, i + 12)
                &&& forall|j: int| 0 <= j < i ==> !shows_identifier_at(s, j)
            },
{
    assert forall|i: int| shows_identifier_at(s, i) <==> bvid_at(s, i) by {
        if shows_identifier_at(s, i) {
            assert forall|j: int| i + 2 <= j < i + bvid_len() implies is_bvid_char(#[trigger] s[j]) by {
                let c = s[j];
                assert(('0' <= c <= '9' || 'A' <= c <= 'Z' || 'a' <= c <= 'z') && c != '0' && c != 'I'
                    && c != 'O' && c != 'l');
            }
        }
        if bvid_at(s, i) {
            assert forall|j: int| i + 2 <= j < i + 12 implies {
                let c = #[trigger] s[j];
                &&& ('0' <= c <= '9' || 'A' <= c <= 'Z' || 'a' <= c <= 'z')
                &&& c != '0' && c != 'I' && c != 'O' && c != 'l'
            } by {
                assert(is_bvid_char(s[j]));
            }
        }
    }
    lemma_first_bvid_from(s, 0);
    if let Some(i) = first_bvid_from(s, 0) {
        assert(first_bvid(s) == Some(s.subrange(i, i + 12)));
    }
}

} // verus!
