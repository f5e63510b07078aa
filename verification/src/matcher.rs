//! Counting the occurrences of a byte pattern that a greedy scan finds.

use vstd::prelude::*;

verus! {

/// `pattern` stands in `text` at position `i`.
pub open spec fn occurs_at(text: Seq<u8>, pattern: Seq<u8>, i: int) -> bool {
    &&& 0 <= i
    &&& i + pattern.len() <= text.len()
    &&& text.subrange(i, i + pattern.len()) == pattern
}

/// The number of matches that a scan finds from position `i` on: where the
/// pattern stands at the position the scan takes it and resumes behind it,
/// elsewhere it moves on by one byte. An empty pattern is never found.
pub open spec fn scan_from(text: Seq<u8>, pattern: Seq<u8>, i: int) -> nat
    decreases text.len() - i,
{
    if pattern.len() == 0 || i < 0 || i + pattern.len() > text.len() {
        0
    } else if occurs_at(text, pattern, i) {
        1 + scan_from(text, pattern, i + pattern.len())
    } else {
        scan_from(text, pattern, i + 1)
    }
}

/// The number of non-overlapping matches of `pattern` in `text`, taken
/// greedily from left to right.
pub open spec fn count(text: Seq<u8>, pattern: Seq<u8>) -> nat {
    scan_from(text, pattern, 0)
}

/// Tells whether `pattern` stands in `text` at position `i`.
pub fn matches_at(text: &[u8], pattern: &[u8], i: usize) -> (found: bool)
    requires
        i + pattern@.len() <= text@.len(),
    ensures
        found == occurs_at(text@, pattern@, i as int),
{
    let width: usize = pattern.len();
    let size: usize = text.len();
    let mut k: usize = 0;
    while k < width
        invariant
            width == pattern@.len(),
            size == text@.len(),
            k <= width,
            i + width <= size,
            forall|j: int| 0 <= j < k ==> text@[i + j] == pattern@[j],
        decreases width - k,
    {
        if text[i + k] != pattern[k] {
            assert(text@.subrange(i as int, i + pattern@.len())[k as int] != pattern@[k as int]);
            return false;
        }
        k += 1;
    }
    assert(text@.subrange(i as int, i + pattern@.len()) =~= pattern@);
    true
}

/// Counts the non-overlapping matches of `pattern` in `text`, scanning from
/// the left: a match consumes its bytes, so `aa` is found once in `aaa`.
/// An empty pattern, or one longer than the text, is found zero times.
pub fn find_occurrences(text: &[u8], pattern: &[u8]) -> (n: usize)
    ensures
        n == count(text@, pattern@),
{
    if pattern.len() == 0 || text.len() < pattern.len() {
        return 0;
    }
    let width: usize = pattern.len();
    let size: usize = text.len();
    let last: usize = size - width;
    let mut n: usize = 0;
    let mut i: usize = 0;
    while i <= last
        invariant
            width == pattern@.len(),
            size == text@.len(),
            width > 0,
            last + width == size,
            i <= size,
            n <= i,
            n + scan_from(text@, pattern@, i as int) == count(text@, pattern@),
        decreases size - i,
    {
        if matches_at(text, pattern, i) {
            n += 1;
            i += width;
        } else {
            i += 1;
        }
    }
    n
}

/// The positions at which the scan from position `i` on finds the pattern,
/// in ascending order.
pub open spec fn matches_from(text: Seq<u8>, pattern: Seq<u8>, i: int) -> Seq<int>
    decreases text.len() - i,
{
    if pattern.len() == 0 || i < 0 || i + pattern.len() > text.len() {
        Seq::empty()
    } else if occurs_at(text, pattern, i) {
        seq![i] + matches_from(text, pattern, i + pattern.len())
    } else {
        matches_from(text, pattern, i + 1)
    }
}

/// `found` are the matches that a greedy scan from position `start` on
/// takes, from left to right: each is the first position, not before `start`
/// and not inside the match before it, at which the pattern stands; behind
/// the last of them the pattern stands nowhere.
pub open spec fn greedy_from(text: Seq<u8>, pattern: Seq<u8>, start: int, found: Seq<int>) -> bool
    decreases found.len(),
{
    if found.len() == 0 {
        forall|j: int| start <= j ==> !occurs_at(text, pattern, j)
    } else {
        &&& start <= found[0]
        &&& occurs_at(text, pattern, found[0])
        &&& forall|j: int| start <= j < found[0] ==> !occurs_at(text, pattern, j)
        &&& greedy_from(text, pattern, found[0] + pattern.len(), found.drop_first())
    }
}

/// An empty pattern is found zero times in every text.
pub proof fn lemma_count_empty_pattern(text: Seq<u8>)
    ensures
        count(text, Seq::empty()) == 0,
{
}

/// A pattern that is longer than the text is found zero times.
pub proof fn lemma_count_long_pattern(text: Seq<u8>, pattern: Seq<u8>)
    requires
        pattern.len() > text.len(),
    ensures
        count(text, pattern) == 0,
{
}

/// Matches do not overlap: the matches of a pattern, laid end to end, fit in
/// what is left of the text.
pub proof fn lemma_scan_fits(text: Seq<u8>, pattern: Seq<u8>, i: int)
    requires
        0 <= i <= text.len(),
    ensures
        scan_from(text, pattern, i) * pattern.len() <= text.len() - i,
    decreases text.len() - i,
{
    let width = pattern.len() as int;
    if width == 0 || i + width > text.len() {
        assert(scan_from(text, pattern, i) == 0);
    } else if occurs_at(text, pattern, i) {
        lemma_scan_fits(text, pattern, i + width);
        let rest = scan_from(text, pattern, i + width) as int;
        assert((1 + rest) * width == width + rest * width) by (nonlinear_arith);
    } else {
        lemma_scan_fits(text, pattern, i + 1);
    }
}

/// The scan takes what a greedy scan takes: the positions that it finds
/// are the greedy matches, and it counts them.
pub proof fn lemma_scan_finds_greedy(text: Seq<u8>, pattern: Seq<u8>, i: int)
    requires
        pattern.len() > 0,
        0 <= i,
    ensures
        greedy_from(text, pattern, i, matches_from(text, pattern, i)),
        matches_from(text, pattern, i).len() == scan_from(text, pattern, i),
    decreases text.len() - i,
{
    if i + pattern.len() > text.len() {
    } else if occurs_at(text, pattern, i) {
        lemma_scan_finds_greedy(text, pattern, i + pattern.len());
        let found = matches_from(text, pattern, i);
        assert(found.drop_first() == matches_from(text, pattern, i + pattern.len()));
    } else {
        lemma_scan_finds_greedy(text, pattern, i + 1);
        let found = matches_from(text, pattern, i);
        if found.len() > 0 {
            assert forall|j: int| i <= j < found[0] implies !occurs_at(text, pattern, j) by {
                if j > i {
                    assert(i + 1 <= j);
                }
            }
        } else {
            assert forall|j: int| i <= j implies !occurs_at(text, pattern, j) by {
                if j > i {
                    assert(i + 1 <= j);
                }
            }
        }
    }
}

/// Whatever the greedy matches from position `i` on are, the scan counts
/// that many.
pub proof fn lemma_scan_counts_greedy(text: Seq<u8>, pattern: Seq<u8>, i: int, found: Seq<int>)
    requires
        pattern.len() > 0,
        0 <= i,
        greedy_from(text, pattern, i, found),
    ensures
        scan_from(text, pattern, i) == found.len(),
    decreases text.len() - i,
{
    if i + pattern.len() > text.len() {
        if found.len() > 0 {
            assert(occurs_at(text, pattern, found[0]));
        }
    } else if occurs_at(text, pattern, i) {
        if found.len() == 0 {
            assert(!occurs_at(text, pattern, i));
        }
        if i < found[0] {
            assert(!occurs_at(text, pattern, i));
        }
        lemma_scan_counts_greedy(text, pattern, i + pattern.len(), found.drop_first());
    } else {
        if found.len() > 0 {
            assert(occurs_at(text, pattern, found[0]));
        }
        lemma_scan_counts_greedy(text, pattern, i + 1, found);
    }
}

/// For a pattern that is not empty, the count is the number of matches that
/// a greedy scan from the left takes, and there is such a scan.
pub proof fn lemma_count_is_greedy(text: Seq<u8>, pattern: Seq<u8>)
    requires
        pattern.len() > 0,
    ensures
        greedy_from(text, pattern, 0, matches_from(text, pattern, 0)),
        forall|found: Seq<int>| #[trigger]
            greedy_from(text, pattern, 0, found) ==> count(text, pattern) == found.len(),
{
    lemma_scan_finds_greedy(text, pattern, 0);
    assert forall|found: Seq<int>| #[trigger]
        greedy_from(text, pattern, 0, found) implies count(text, pattern) == found.len() by {
        lemma_scan_counts_greedy(text, pattern, 0, found);
    }
}

} // verus!
