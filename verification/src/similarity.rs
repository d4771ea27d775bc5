//! String similarity scores on a 0..=100 scale.
//!
//! * The Indel ratio (what `rapidfuzz.fuzz.ratio` computes) comes from the
//!   Indel distance of `rapidfuzz`, which is stated through the longest common
//!   subsequence.
//! * The Levenshtein ratio used by the character-name filter is computed here
//!   by dynamic programming over two rows, character by character.

use vstd::prelude::*;

verus! {

// ---------------------------------------------------------------------------
// Longest common subsequence and the Indel ratio
// ---------------------------------------------------------------------------

/// Length of a longest common subsequence.
pub open spec fn lcs_len(a: Seq<char>, b: Seq<char>) -> nat
    decreases a.len() + b.len(),
{
    if a.len() == 0 || b.len() == 0 {
        0
    } else if a.last() == b.last() {
        lcs_len(a.drop_last(), b.drop_last()) + 1
    } else {
        let x = lcs_len(a.drop_last(), b);
        let y = lcs_len(a, b.drop_last());
        if x >= y {
            x
        } else {
            y
        }
    }
}

pub proof fn lemma_lcs_bounds(a: Seq<char>, b: Seq<char>)
    ensures
        lcs_len(a, b) <= a.len(),
        lcs_len(a, b) <= b.len(),
    decreases a.len() + b.len(),
{
    if a.len() > 0 && b.len() > 0 {
        lemma_lcs_bounds(a.drop_last(), b.drop_last());
        lemma_lcs_bounds(a.drop_last(), b);
        lemma_lcs_bounds(a, b.drop_last());
    }
}

pub proof fn lemma_lcs_self(a: Seq<char>)
    ensures
        lcs_len(a, a) == a.len(),
    decreases a.len(),
{
    if a.len() > 0 {
        lemma_lcs_self(a.drop_last());
    }
}

pub proof fn lemma_lcs_symmetric(a: Seq<char>, b: Seq<char>)
    ensures
        lcs_len(a, b) == lcs_len(b, a),
    decreases a.len() + b.len(),
{
    if a.len() > 0 && b.len() > 0 {
        lemma_lcs_symmetric(a.drop_last(), b.drop_last());
        lemma_lcs_symmetric(a.drop_last(), b);
        lemma_lcs_symmetric(a, b.drop_last());
    }
}

/// Calls `rapidfuzz::distance::indel::distance` on the two character
/// sequences.  Trusted: the result is the least number of insertions and
/// deletions turning `a` into `b`, which is `|a| + |b| - 2 * lcs(a, b)` with
/// `lcs_len` the length of a longest common subsequence.
#[verifier::external_body]
fn indel_distance(a: &[char], b: &[char]) -> (d: usize)
    requires
        a@.len() + b@.len() <= usize::MAX,
    ensures
        d == a@.len() + b@.len() - 2 * lcs_len(a@, b@),
{
    rapidfuzz::distance::indel::distance(a.iter().copied(), b.iter().copied())
}

/// Normalized Indel similarity times 100, rounded half up; 100 for two empty
/// sequences.
pub open spec fn indel_ratio(a: Seq<char>, b: Seq<char>) -> int {
    let total = a.len() + b.len();
    if total == 0 {
        100
    } else {
        ((400 * lcs_len(a, b) + total) / (2 * total)) as int
    }
}

pub proof fn lemma_indel_ratio_range(a: Seq<char>, b: Seq<char>)
    ensures
        0 <= indel_ratio(a, b) <= 100,
{
    lemma_lcs_bounds(a, b);
    let total = a.len() + b.len();
    if total > 0 {
        let l = lcs_len(a, b);
        assert(2 * l <= total);
        assert((400 * l + total) / (2 * total) <= 100) by (nonlinear_arith)
            requires
                2 * l <= total,
                total > 0,
        ;
    }
}

/// Identical sequences have ratio 100.
pub proof fn lemma_indel_ratio_self(a: Seq<char>)
    ensures
        indel_ratio(a, a) == 100,
{
    lemma_lcs_self(a);
    let total = a.len() + a.len();
    if total > 0 {
        assert((400 * a.len() + total) / (2 * total) == 100) by (nonlinear_arith)
            requires
                total == 2 * a.len(),
                total > 0,
        ;
    }
}

/// The Indel ratio does not depend on the order of its arguments.
pub proof fn lemma_indel_ratio_symmetric(a: Seq<char>, b: Seq<char>)
    ensures
        indel_ratio(a, b) == indel_ratio(b, a),
{
    lemma_lcs_symmetric(a, b);
}

/// The Indel ratio of two character sequences.
pub fn indel_ratio_chars(a: &[char], b: &[char]) -> (r: u8)
    requires
        a@.len() * 4 <= isize::MAX,
        b@.len() * 4 <= isize::MAX,
    ensures
        r == indel_ratio(a@, b@),
{
    proof {
        lemma_indel_ratio_range(a@, b@);
        lemma_lcs_bounds(a@, b@);
    }
    let total = a.len() + b.len();
    if total == 0 {
        return 100;
    }
    let d = indel_distance(a, b);
    let common2 = (total - d) as u128;
    let total2 = total as u128;
    assert(common2 == 2 * lcs_len(a@, b@));
    assert(200 * common2 + total2 <= 201 * total2);
    let r = (200 * common2 + total2) / (2 * total2);
    assert(200 * common2 == 400 * lcs_len(a@, b@));
    r as u8
}

// ---------------------------------------------------------------------------
// Levenshtein distance and the name-filter ratio
// ---------------------------------------------------------------------------

pub open spec fn min3(x: nat, y: nat, z: nat) -> nat {
    if x <= y && x <= z {
        x
    } else if y <= z {
        y
    } else {
        z
    }
}

/// Levenshtein (edit) distance.
pub open spec fn lev(a: Seq<char>, b: Seq<char>) -> nat
    decreases a.len() + b.len(),
{
    if a.len() == 0 {
        b.len()
    } else if b.len() == 0 {
        a.len()
    } else {
        min3(
            lev(a.drop_last(), b) + 1,
            lev(a, b.drop_last()) + 1,
            lev(a.drop_last(), b.drop_last()) + (if a.last() == b.last() { 0nat } else { 1nat }),
        )
    }
}

pub proof fn lemma_lev_bound(a: Seq<char>, b: Seq<char>)
    ensures
        lev(a, b) <= (if a.len() >= b.len() { a.len() } else { b.len() }),
    decreases a.len() + b.len(),
{
    if a.len() > 0 && b.len() > 0 {
        lemma_lev_bound(a.drop_last(), b.drop_last());
    }
}

pub proof fn lemma_lev_self(a: Seq<char>)
    ensures
        lev(a, a) == 0,
    decreases a.len(),
{
    if a.len() > 0 {
        lemma_lev_self(a.drop_last());
    }
}

/// Character-name similarity, the Levenshtein ratio over characters:
/// `100 * (m - d) / m` rounded down, where `m` is the larger character count
/// and `d` the edit distance; 100 for two empty strings, 0 when exactly one
/// is empty.
pub open spec fn name_ratio(a: Seq<char>, b: Seq<char>) -> int {
    if a.len() == 0 && b.len() == 0 {
        100
    } else if a.len() == 0 || b.len() == 0 {
        0
    } else {
        let m = if a.len() >= b.len() { a.len() } else { b.len() };
        (100 * (m - lev(a, b))) / (m as int)
    }
}

/// One row of the table is known for the first `i` characters of `a`.
spec fn row_ok(row: Seq<usize>, a: Seq<char>, b: Seq<char>, i: int) -> bool {
    forall|j: int| 0 <= j <= b.len() ==> #[trigger] row[j] == lev(a.take(i), b.take(j))
}

proof fn lemma_lev_step(a: Seq<char>, b: Seq<char>, i: int, j: int)
    requires
        0 <= i < a.len(),
        0 <= j < b.len(),
    ensures
        lev(a.take(i + 1), b.take(j + 1)) == min3(
            lev(a.take(i), b.take(j + 1)) + 1,
            lev(a.take(i + 1), b.take(j)) + 1,
            lev(a.take(i), b.take(j)) + (if a[i] == b[j] { 0nat } else { 1nat }),
        ),
{
    assert(a.take(i + 1).drop_last() =~= a.take(i));
    assert(b.take(j + 1).drop_last() =~= b.take(j));
}

/// Levenshtein ratio between two strings as the character-name filter uses it.
pub fn name_ratio_chars(s1: &[char], s2: &[char]) -> (r: u8)
    requires
        s1@.len() * 4 <= isize::MAX,
        s2@.len() * 4 <= isize::MAX,
    ensures
        r == name_ratio(s1@, s2@),
{
    let len1 = s1.len();
    let len2 = s2.len();
    if len1 == 0 && len2 == 0 {
        return 100;
    }
    if len1 == 0 || len2 == 0 {
        return 0;
    }
    let n1 = s1.len();
    let n2 = s2.len();
    let ghost a = s1@;
    let ghost b = s2@;
    // Two rows of width n2 + 1: `prev` starts as 0..=n2, `curr` as zeros.
    let mut prev: Vec<usize> = Vec::new();
    let mut k: usize = 0;
    while k <= len2
        invariant
            k <= len2 + 1,
            len2 <= isize::MAX,
            prev@.len() == k,
            forall|t: int| 0 <= t < k ==> #[trigger] prev@[t] == t,
        decreases len2 + 1 - k,
    {
        prev.push(k);
        k += 1;
    }
    let mut curr: Vec<usize> = vec![0usize; len2 + 1];
    proof {
        assert forall|j: int| 0 <= j <= b.len() implies #[trigger] prev@[j] == lev(a.take(0), b.take(j)) by {
            assert(a.take(0).len() == 0);
        }
    }
    let mut i: usize = 0;
    while i < n1
        invariant
            n1 == a.len(),
            n2 == b.len(),
            s1@ == a,
            s2@ == b,
            n2 == len2,
            len2 <= isize::MAX,
            n1 * 4 <= isize::MAX,
            n2 * 4 <= isize::MAX,
            i <= n1,
            prev@.len() == len2 + 1,
            curr@.len() == len2 + 1,
            row_ok(prev@, a, b, i as int),
            forall|j: int| 0 <= j <= n2 ==> #[trigger] prev@[j] * 4 <= isize::MAX,
        decreases n1 - i,
    {
        let c1 = s1[i];
        curr.set(0, i + 1);
        proof {
            assert(a.take(i + 1).len() == i + 1);
            assert(b.take(0).len() == 0);
        }
        let mut j: usize = 0;
        while j < n2
            invariant
                n1 == a.len(),
                n2 == b.len(),
                s1@ == a,
                s2@ == b,
                n2 == len2,
                len2 <= isize::MAX,
                n1 * 4 <= isize::MAX,
                n2 * 4 <= isize::MAX,
                i < n1,
                c1 == a[i as int],
                j <= n2,
                prev@.len() == len2 + 1,
                curr@.len() == len2 + 1,
                row_ok(prev@, a, b, i as int),
                forall|t: int| 0 <= t <= j ==> #[trigger] curr@[t] == lev(a.take(i + 1), b.take(t)),
                forall|t: int| 0 <= t <= n2 ==> #[trigger] prev@[t] * 4 <= isize::MAX,
                forall|t: int| 0 <= t <= j ==> #[trigger] curr@[t] * 4 <= isize::MAX,
            decreases n2 - j,
        {
            let c2 = s2[j];
            let cost: usize = if c1 == c2 { 0 } else { 1 };
            let ins = curr[j] + 1;
            let del = prev[j + 1] + 1;
            let sub = prev[j] + cost;
            let m = if ins <= del && ins <= sub {
                ins
            } else if del <= sub {
                del
            } else {
                sub
            };
            proof {
                lemma_lev_step(a, b, i as int, j as int);
                lemma_lev_bound(a.take(i + 1), b.take(j + 1));
                assert(prev@[j + 1] == lev(a.take(i as int), b.take(j + 1)));
                assert(prev@[j as int] == lev(a.take(i as int), b.take(j as int)));
                assert(curr@[j as int] == lev(a.take(i + 1), b.take(j as int)));
                assert(a.take(i + 1).len() == i + 1);
                assert(b.take(j + 1).len() == j + 1);
                assert(m == lev(a.take(i + 1), b.take(j + 1)));
            }
            curr.set(j + 1, m);
            j += 1;
        }
        proof {
            assert forall|t: int| 0 <= t <= b.len() implies #[trigger] curr@[t] == lev(a.take(i + 1), b.take(t)) by {}
        }
        core::mem::swap(&mut prev, &mut curr);
        i += 1;
    }
    assert(a.take(n1 as int) =~= a);
    assert(b.take(n2 as int) =~= b);
    let distance = prev[len2];
    proof {
        lemma_lev_bound(a, b);
        assert(distance == lev(a, b));
    }
    let max_len = if len1 >= len2 { len1 } else { len2 };
    assert(distance <= max_len);
    let r = (100 * ((max_len - distance) as u128)) / (max_len as u128);
    assert(r <= 100) by (nonlinear_arith)
        requires
            r == (100 * (max_len - distance)) / max_len as int,
            distance <= max_len,
            max_len > 0,
    ;
    r as u8
}

} // verus!
