//! Alignment of two character sequences along a longest common subsequence.

use vstd::prelude::*;

verus! {

/// The length of a longest common subsequence of `prev` from `i` on and `next` from `j` on.
pub open spec fn lcs_len(prev: Seq<char>, next: Seq<char>, i: int, j: int) -> nat
    decreases prev.len() - i + next.len() - j,
    when 0 <= i <= prev.len() && 0 <= j <= next.len()
{
    if i == prev.len() || j == next.len() {
        0
    } else if prev[i] == next[j] {
        lcs_len(prev, next, i + 1, j + 1) + 1
    } else if lcs_len(prev, next, i + 1, j) >= lcs_len(prev, next, i, j + 1) {
        lcs_len(prev, next, i + 1, j)
    } else {
        lcs_len(prev, next, i, j + 1)
    }
}

/// The position before `i`, or the first.
pub open spec fn nearest_before(i: int) -> usize {
    if i > 0 {
        (i - 1) as usize
    } else {
        0
    }
}

/// For each character of `next` from `j` on, a position of `prev`: that of the character it is
/// matched with, or, for a new character, the nearest position that was passed before.
pub open spec fn alignment_from(prev: Seq<char>, next: Seq<char>, i: int, j: int) -> Seq<usize>
    decreases prev.len() - i + next.len() - j,
    when 0 <= i <= prev.len() && 0 <= j <= next.len()
{
    if j == next.len() {
        seq![]
    } else if i < prev.len() && prev[i] == next[j] {
        seq![i as usize] + alignment_from(prev, next, i + 1, j + 1)
    } else if i < prev.len() && lcs_len(prev, next, i + 1, j) >= lcs_len(prev, next, i, j + 1) {
        alignment_from(prev, next, i + 1, j)
    } else {
        seq![nearest_before(i)] + alignment_from(prev, next, i, j + 1)
    }
}

/// The alignment of two whole sequences.
pub open spec fn alignment(prev: Seq<char>, next: Seq<char>) -> Seq<usize> {
    alignment_from(prev, next, 0, 0)
}

/// The table of [`lcs_len`], last row and last column first, without the zero border.
spec fn is_table(prev: Seq<char>, next: Seq<char>, rows: Seq<Vec<usize>>) -> bool {
    &&& rows.len() <= prev.len()
    &&& forall|r: int|
        0 <= r < rows.len() ==> is_row(prev, next, prev.len() - 1 - r, (#[trigger] rows[r])@)
            && rows[r]@.len() == next.len()
}

spec fn is_row(prev: Seq<char>, next: Seq<char>, i: int, row: Seq<usize>) -> bool {
    &&& row.len() <= next.len()
    &&& forall|t: int|
        0 <= t < row.len() ==> #[trigger] row[t] == lcs_len(prev, next, i, next.len() - 1 - t)
}

proof fn lemma_lcs_bound(prev: Seq<char>, next: Seq<char>, i: int, j: int)
    requires
        0 <= i <= prev.len(),
        0 <= j <= next.len(),
    ensures
        lcs_len(prev, next, i, j) <= prev.len() - i,
        lcs_len(prev, next, i, j) <= next.len() - j,
    decreases prev.len() - i + next.len() - j,
{
    if i < prev.len() && j < next.len() {
        if prev[i] == next[j] {
            lemma_lcs_bound(prev, next, i + 1, j + 1);
        } else {
            lemma_lcs_bound(prev, next, i + 1, j);
            lemma_lcs_bound(prev, next, i, j + 1);
        }
    }
}

/// The entry of the table for `i` and `j`, or zero on the border.
fn entry(prev: &[char], next: &[char], rows: &Vec<Vec<usize>>, i: usize, j: usize) -> (r: usize)
    requires
        is_table(prev@, next@, rows@),
        i <= prev@.len(),
        j <= next@.len(),
        prev@.len() - i <= rows@.len(),
    ensures
        r == lcs_len(prev@, next@, i as int, j as int),
{
    if i == prev.len() || j == next.len() {
        0
    } else {
        let r: usize = prev.len() - 1 - i;
        let t: usize = next.len() - 1 - j;
        proof {
            assert(is_row(prev@, next@, prev@.len() - 1 - r, rows@[r as int]@));
            assert(rows@[r as int]@[t as int] == lcs_len(prev@, next@, i as int, j as int));
        }
        rows[r][t]
    }
}

fn table(prev: &[char], next: &[char]) -> (rows: Vec<Vec<usize>>)
    ensures
        is_table(prev@, next@, rows@),
        rows@.len() == prev@.len(),
{
    let n = prev.len();
    let m = next.len();
    let mut rows: Vec<Vec<usize>> = Vec::new();
    while rows.len() < n
        invariant
            n == prev@.len(),
            m == next@.len(),
            is_table(prev@, next@, rows@),
        decreases n - rows@.len(),
    {
        let i: usize = n - 1 - rows.len();
        let mut row: Vec<usize> = Vec::new();
        while row.len() < m
            invariant
                n == prev@.len(),
                m == next@.len(),
                i < n,
                rows@.len() == n - 1 - i,
                is_table(prev@, next@, rows@),
                is_row(prev@, next@, i as int, row@),
            decreases m - row@.len(),
        {
            let j: usize = m - 1 - row.len();
            let value: usize = if prev[i] == next[j] {
                proof {
                    lemma_lcs_bound(prev@, next@, i + 1, j + 1);
                }
                entry(prev, next, &rows, i + 1, j + 1) + 1
            } else {
                let below = entry(prev, next, &rows, i + 1, j);
                let right: usize = if row.len() == 0 {
                    0
                } else {
                    proof {
                        assert(row@[row@.len() - 1] == lcs_len(
                            prev@,
                            next@,
                            i as int,
                            next@.len() - 1 - (row@.len() - 1),
                        ));
                    }
                    row[row.len() - 1]
                };
                if below >= right {
                    below
                } else {
                    right
                }
            };
            proof {
                assert(lcs_len(prev@, next@, i as int, m as int) == 0);
                assert(value == lcs_len(prev@, next@, i as int, j as int));
            }
            row.push(value);
        }
        rows.push(row);
    }
    rows
}

/// Aligns two character sequences along a longest common subsequence. Gives, for each position
/// of `next`, an index into `prev`.
pub fn lcs_align(prev: &[char], next: &[char]) -> (r: Vec<usize>)
    ensures
        r@ == alignment(prev@, next@),
{
    let n = prev.len();
    let m = next.len();
    let rows = table(prev, next);
    let mut out: Vec<usize> = Vec::new();
    let mut i: usize = 0;
    let mut j: usize = 0;
    proof {
        assert(out@ + alignment(prev@, next@) =~= alignment(prev@, next@));
    }
    while j < m
        invariant
            n == prev@.len(),
            m == next@.len(),
            i <= n,
            j <= m,
            is_table(prev@, next@, rows@),
            rows@.len() == n,
            out@ + alignment_from(prev@, next@, i as int, j as int) == alignment(prev@, next@),
        decreases n - i + m - j,
    {
        let ghost before = out@;
        if i < n && prev[i] == next[j] {
            out.push(i);
            proof {
                assert(out@ + alignment_from(prev@, next@, i + 1, j + 1) =~= before
                    + alignment_from(prev@, next@, i as int, j as int));
            }
            i += 1;
            j += 1;
        } else if i < n && entry(prev, next, &rows, i + 1, j) >= entry(prev, next, &rows, i, j + 1) {
            i += 1;
        } else {
            let near: usize = if i > 0 { i - 1 } else { 0 };
            out.push(near);
            proof {
                assert(out@ + alignment_from(prev@, next@, i as int, j + 1) =~= before
                    + alignment_from(prev@, next@, i as int, j as int));
            }
            j += 1;
        }
    }
    proof {
        assert(out@ + alignment_from(prev@, next@, i as int, j as int) =~= out@);
    }
    out
}

/// A list of position pairs, ascending on both sides, at which `prev` and `next` agree.
pub open spec fn common_subsequence(
    prev: Seq<char>,
    next: Seq<char>,
    pairs: Seq<(int, int)>,
) -> bool {
    &&& forall|k: int|
        0 <= k < pairs.len() ==> {
            &&& 0 <= (#[trigger] pairs[k]).0 < prev.len()
            &&& 0 <= pairs[k].1 < next.len()
            &&& prev[pairs[k].0] == next[pairs[k].1]
        }
    &&& forall|a: int, b: int|
        0 <= a < b < pairs.len() ==> (#[trigger] pairs[a]).0 < (#[trigger] pairs[b]).0
            && pairs[a].1 < pairs[b].1
}

/// The pairs that the alignment matches from `i` and `j` on.
pub open spec fn matches_from(prev: Seq<char>, next: Seq<char>, i: int, j: int) -> Seq<(int, int)>
    decreases prev.len() - i + next.len() - j,
    when 0 <= i <= prev.len() && 0 <= j <= next.len()
{
    if j == next.len() {
        seq![]
    } else if i < prev.len() && prev[i] == next[j] {
        seq![(i, j)] + matches_from(prev, next, i + 1, j + 1)
    } else if i < prev.len() && lcs_len(prev, next, i + 1, j) >= lcs_len(prev, next, i, j + 1) {
        matches_from(prev, next, i + 1, j)
    } else {
        matches_from(prev, next, i, j + 1)
    }
}

proof fn lemma_matches_from(prev: Seq<char>, next: Seq<char>, i: int, j: int)
    requires
        0 <= i <= prev.len() <= usize::MAX,
        0 <= j <= next.len(),
    ensures
        ({
            let pairs = matches_from(prev, next, i, j);
            let aligned = alignment_from(prev, next, i, j);
            &&& common_subsequence(prev, next, pairs)
            &&& pairs.len() == lcs_len(prev, next, i, j)
            &&& aligned.len() == next.len() - j
            &&& forall|k: int|
                0 <= k < pairs.len() ==> {
                    &&& i <= (#[trigger] pairs[k]).0
                    &&& j <= pairs[k].1
                    &&& aligned[pairs[k].1 - j] == pairs[k].0
                }
        }),
    decreases prev.len() - i + next.len() - j,
{
    let pairs = matches_from(prev, next, i, j);
    let aligned = alignment_from(prev, next, i, j);
    if j == next.len() {
    } else if i < prev.len() && prev[i] == next[j] {
        lemma_matches_from(prev, next, i + 1, j + 1);
        let rest = matches_from(prev, next, i + 1, j + 1);
        let tail = alignment_from(prev, next, i + 1, j + 1);
        assert(pairs =~= seq![(i, j)] + rest);
        assert(forall|k: int| 1 <= k < pairs.len() ==> pairs[k] == #[trigger] rest[k - 1]);
        assert forall|k: int| 0 <= k < pairs.len() implies {
            &&& 0 <= (#[trigger] pairs[k]).0 < prev.len()
            &&& 0 <= pairs[k].1 < next.len()
            &&& prev[pairs[k].0] == next[pairs[k].1]
            &&& i <= pairs[k].0
            &&& j <= pairs[k].1
            &&& aligned[pairs[k].1 - j] == pairs[k].0
        } by {
            if k > 0 {
                assert(pairs[k] == rest[k - 1]);
                assert(tail[rest[k - 1].1 - (j + 1)] == rest[k - 1].0);
                assert(aligned[pairs[k].1 - j] == tail[pairs[k].1 - j - 1]);
            }
        }
        assert forall|a: int, b: int| 0 <= a < b < pairs.len() implies (#[trigger] pairs[a]).0 < (
        #[trigger] pairs[b]).0 && pairs[a].1 < pairs[b].1 by {
            assert(pairs[b] == rest[b - 1]);
            if a > 0 {
                assert(pairs[a] == rest[a - 1]);
            }
        }
    } else if i < prev.len() && lcs_len(prev, next, i + 1, j) >= lcs_len(prev, next, i, j + 1) {
        lemma_matches_from(prev, next, i + 1, j);
    } else {
        lemma_matches_from(prev, next, i, j + 1);
        let tail = alignment_from(prev, next, i, j + 1);
        assert forall|k: int| 0 <= k < pairs.len() implies aligned[(#[trigger] pairs[k]).1 - j]
            == pairs[k].0 by {
            assert(tail[pairs[k].1 - (j + 1)] == pairs[k].0);
            assert(aligned[pairs[k].1 - j] == tail[pairs[k].1 - j - 1]);
        }
    }
}

/// The alignment matches along a common subsequence of length [`lcs_len`]: the matched positions
/// ascend on both sides, hold equal characters, and each is the one that the alignment gives.
pub proof fn alignment_follows_common_subsequence(prev: Seq<char>, next: Seq<char>)
    requires
        prev.len() <= usize::MAX,
    ensures
        ({
            let pairs = matches_from(prev, next, 0, 0);
            &&& common_subsequence(prev, next, pairs)
            &&& pairs.len() == lcs_len(prev, next, 0, 0)
            &&& forall|k: int|
                0 <= k < pairs.len() ==> alignment(prev, next)[(#[trigger] pairs[k]).1]
                    == pairs[k].0
        }),
{
    lemma_matches_from(prev, next, 0, 0);
    let pairs = matches_from(prev, next, 0, 0);
    assert forall|k: int| 0 <= k < pairs.len() implies alignment(prev, next)[(
    #[trigger] pairs[k]).1] == pairs[k].0 by {
        assert(alignment_from(prev, next, 0, 0)[pairs[k].1 - 0] == pairs[k].0);
    }
}

/// Dropping a position of either side shortens the longest common subsequence by at most one,
/// and never lengthens it.
proof fn lemma_lcs_step(prev: Seq<char>, next: Seq<char>, i: int, j: int)
    requires
        0 <= i <= prev.len(),
        0 <= j <= next.len(),
    ensures
        i < prev.len() ==> lcs_len(prev, next, i + 1, j) <= lcs_len(prev, next, i, j) <= lcs_len(
            prev,
            next,
            i + 1,
            j,
        ) + 1,
        j < next.len() ==> lcs_len(prev, next, i, j + 1) <= lcs_len(prev, next, i, j) <= lcs_len(
            prev,
            next,
            i,
            j + 1,
        ) + 1,
    decreases prev.len() - i + next.len() - j,
{
    if i < prev.len() && j < next.len() {
        lemma_lcs_step(prev, next, i + 1, j);
        lemma_lcs_step(prev, next, i, j + 1);
        lemma_lcs_step(prev, next, i + 1, j + 1);
    }
}

proof fn lemma_longest_from(
    prev: Seq<char>,
    next: Seq<char>,
    i: int,
    j: int,
    pairs: Seq<(int, int)>,
)
    requires
        0 <= i <= prev.len(),
        0 <= j <= next.len(),
        common_subsequence(prev, next, pairs),
        pairs.len() > 0 ==> i <= pairs[0].0 && j <= pairs[0].1,
    ensures
        pairs.len() <= lcs_len(prev, next, i, j),
    decreases prev.len() - i + next.len() - j,
{
    if pairs.len() > 0 {
        let first = pairs[0];
        let rest = pairs.drop_first();
        assert(i < prev.len() && j < next.len());
        assert forall|k: int| 0 <= k < rest.len() implies {
            &&& 0 <= (#[trigger] rest[k]).0 < prev.len()
            &&& 0 <= rest[k].1 < next.len()
            &&& prev[rest[k].0] == next[rest[k].1]
        } by {
            assert(rest[k] == pairs[k + 1]);
        }
        assert forall|a: int, b: int| 0 <= a < b < rest.len() implies (#[trigger] rest[a]).0 < (
        #[trigger] rest[b]).0 && rest[a].1 < rest[b].1 by {
            assert(rest[a] == pairs[a + 1]);
            assert(rest[b] == pairs[b + 1]);
        }
        if rest.len() > 0 {
            assert(rest[0] == pairs[1]);
        }
        lemma_lcs_step(prev, next, i, j);
        if prev[i] == next[j] {
            lemma_longest_from(prev, next, i + 1, j + 1, rest);
        } else if first.0 == i {
            assert(first.1 > j);
            lemma_longest_from(prev, next, i, j + 1, pairs);
        } else {
            lemma_longest_from(prev, next, i + 1, j, pairs);
        }
    }
}

/// No common subsequence is longer than the one that the alignment follows.
pub proof fn alignment_follows_longest(prev: Seq<char>, next: Seq<char>, pairs: Seq<(int, int)>)
    requires
        common_subsequence(prev, next, pairs),
    ensures
        pairs.len() <= lcs_len(prev, next, 0, 0),
{
    lemma_longest_from(prev, next, 0, 0, pairs);
}

proof fn lemma_alignment_range(prev: Seq<char>, next: Seq<char>, i: int, j: int)
    requires
        0 <= i <= prev.len() <= usize::MAX,
        0 <= j <= next.len(),
    ensures
        ({
            let aligned = alignment_from(prev, next, i, j);
            &&& aligned.len() == next.len() - j
            &&& forall|k: int|
                0 <= k < aligned.len() ==> nearest_before(i) <= #[trigger] aligned[k] && (
                prev.len() > 0 ==> aligned[k] < prev.len())
            &&& forall|a: int, b: int|
                0 <= a <= b < aligned.len() ==> #[trigger] aligned[a] <= #[trigger] aligned[b]
        }),
    decreases prev.len() - i + next.len() - j,
{
    let aligned = alignment_from(prev, next, i, j);
    if j == next.len() {
    } else if i < prev.len() && prev[i] == next[j] {
        lemma_alignment_range(prev, next, i + 1, j + 1);
        let tail = alignment_from(prev, next, i + 1, j + 1);
        assert(forall|k: int| 1 <= k < aligned.len() ==> aligned[k] == #[trigger] tail[k - 1]);
        assert forall|k: int| 0 <= k < aligned.len() implies nearest_before(i)
            <= #[trigger] aligned[k] && aligned[k] < prev.len() && i <= aligned[k] by {
            if k > 0 {
                assert(aligned[k] == tail[k - 1]);
            }
        }
        assert forall|a: int, b: int| 0 <= a <= b < aligned.len() implies #[trigger] aligned[a]
            <= #[trigger] aligned[b] by {
            if a > 0 {
                assert(aligned[a] == tail[a - 1]);
                assert(aligned[b] == tail[b - 1]);
            }
        }
    } else if i < prev.len() && lcs_len(prev, next, i + 1, j) >= lcs_len(prev, next, i, j + 1) {
        lemma_alignment_range(prev, next, i + 1, j);
    } else {
        lemma_alignment_range(prev, next, i, j + 1);
        let tail = alignment_from(prev, next, i, j + 1);
        assert forall|k: int| 0 <= k < aligned.len() implies nearest_before(i)
            <= #[trigger] aligned[k] && (prev.len() > 0 ==> aligned[k] < prev.len()) by {
            if k > 0 {
                assert(aligned[k] == tail[k - 1]);
            }
        }
        assert forall|a: int, b: int| 0 <= a <= b < aligned.len() implies #[trigger] aligned[a]
            <= #[trigger] aligned[b] by {
            if a > 0 {
                assert(aligned[a] == tail[a - 1]);
            }
            if b > 0 {
                assert(aligned[b] == tail[b - 1]);
            }
        }
    }
}

/// The alignment gives every position of `next` an index into `prev`, and the indexes never
/// descend.
pub proof fn alignment_indexes_prev(prev: Seq<char>, next: Seq<char>)
    requires
        prev.len() <= usize::MAX,
    ensures
        alignment(prev, next).len() == next.len(),
        prev.len() > 0 ==> forall|k: int|
            0 <= k < next.len() ==> #[trigger] alignment(prev, next)[k] < prev.len(),
        forall|a: int, b: int|
            0 <= a <= b < next.len() ==> #[trigger] alignment(prev, next)[a]
                <= #[trigger] alignment(prev, next)[b],
{
    lemma_alignment_range(prev, next, 0, 0);
}

proof fn lemma_align_same(s: Seq<char>, i: int)
    requires
        0 <= i <= s.len(),
    ensures
        alignment_from(s, s, i, i) == Seq::new((s.len() - i) as nat, |k: int| (i + k) as usize),
    decreases s.len() - i,
{
    if i < s.len() {
        lemma_align_same(s, i + 1);
    }
    assert(alignment_from(s, s, i, i) =~= Seq::new(
        (s.len() - i) as nat,
        |k: int| (i + k) as usize,
    ));
}

/// A sequence is aligned with itself position by position.
pub proof fn alignment_of_unchanged(s: Seq<char>)
    ensures
        alignment(s, s) == Seq::new(s.len(), |k: int| k as usize),
{
    lemma_align_same(s, 0);
    assert(alignment(s, s) =~= Seq::new(s.len(), |k: int| k as usize));
}

} // verus!
