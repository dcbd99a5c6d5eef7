//! Shannon-Fano code assignment.
//!
//! A frequency-sorted list of byte statistics is recursively partitioned:
//! a range scans left to right for the first point where the absolute
//! difference between the left and right count sums stops improving, then
//! recurses with the prefix extended by 0 on the left and 1 on the right.

use vstd::prelude::*;
use crate::bits::BitVector;

verus! {

/// One distinct byte value observed in the input: its occurrence count and,
/// once assigned, its prefix code.  The byte's probability is its count over
/// the total number of bytes read.
pub struct Encoding {
    pub byte: u8,
    pub bit_vec: Option<BitVector>,
    pub count: u64,
}

/// The counts of a statistics list.
pub open spec fn counts_of(s: Seq<Encoding>) -> Seq<u64> {
    s.map_values(|e: Encoding| e.count)
}

/// Sum of `counts[s..e]`.
pub open spec fn range_sum(counts: Seq<u64>, s: int, e: int) -> int
    decreases e - s,
{
    if s >= e {
        0
    } else {
        counts[s] + range_sum(counts, s + 1, e)
    }
}

pub proof fn lemma_range_sum_split(counts: Seq<u64>, s: int, m: int, e: int)
    requires
        s <= m <= e,
    ensures
        range_sum(counts, s, e) == range_sum(counts, s, m) + range_sum(counts, m, e),
    decreases m - s,
{
    if s < m {
        lemma_range_sum_split(counts, s + 1, m, e);
    }
}

/// A range of counts that are all at least 1 sums to at least its length.
pub proof fn lemma_range_sum_lower(counts: Seq<u64>, s: int, e: int)
    requires
        s <= e,
        forall|i: int| s <= i < e ==> 1 <= counts[i],
    ensures
        range_sum(counts, s, e) >= e - s,
    decreases e - s,
{
    if s < e {
        lemma_range_sum_lower(counts, s + 1, e);
    }
}

/// The absolute difference of two sums.
pub open spec fn abs_diff(a: int, b: int) -> int {
    if a >= b {
        a - b
    } else {
        b - a
    }
}

/// The greedy split scan over `[i, e)`: `left` sums the counts already taken
/// into the left part and `best` is the previous difference; the result is
/// the first index whose difference stops improving.
pub open spec fn scan_split(
    counts: Seq<u64>,
    e: int,
    total: int,
    i: int,
    left: int,
    best: int,
) -> int
    decreases e - i,
{
    if i >= e {
        i
    } else {
        let left2 = left + counts[i];
        let d = abs_diff(left2, total - left2);
        if d < best {
            scan_split(counts, e, total, i + 1, left2, d)
        } else {
            i
        }
    }
}

/// The split point the greedy scan chooses for the range `[s, e)`.
pub open spec fn split_of(counts: Seq<u64>, s: int, e: int) -> int {
    let total = range_sum(counts, s, e);
    let left0 = counts[s] as int;
    scan_split(counts, e, total, s + 1, left0, abs_diff(left0, total - left0))
}

/// With positive counts the scan always stops strictly inside the range.
pub proof fn lemma_scan_split_bounds(
    counts: Seq<u64>,
    e: int,
    total: int,
    i: int,
    left: int,
    best: int,
)
    requires
        i <= e - 1,
        1 <= left,
        total - left == range_sum(counts, i, e),
        best == abs_diff(left, total - left),
        forall|k: int| i <= k < e ==> 1 <= counts[k],
    ensures
        i <= scan_split(counts, e, total, i, left, best) <= e - 1,
    decreases e - i,
{
    let left2 = left + counts[i];
    let d = abs_diff(left2, total - left2);
    assert(range_sum(counts, i, e) == counts[i] + range_sum(counts, i + 1, e));
    if i == e - 1 {
        assert(range_sum(counts, e, e) == 0);
        assert(left2 == total);
        assert(best <= total - 2);
    } else if d < best {
        lemma_range_sum_lower(counts, i + 1, e);
        lemma_scan_split_bounds(counts, e, total, i + 1, left2, d);
    }
}

/// The split of a range of at least two positive counts lies strictly inside.
pub proof fn lemma_split_bounds(counts: Seq<u64>, s: int, e: int)
    requires
        s + 2 <= e,
        forall|k: int| s <= k < e ==> 1 <= counts[k],
    ensures
        s < split_of(counts, s, e) < e,
    decreases e - s,
{
    let total = range_sum(counts, s, e);
    let left0 = counts[s] as int;
    assert(total == counts[s] + range_sum(counts, s + 1, e));
    lemma_scan_split_bounds(
        counts,
        e,
        total,
        s + 1,
        left0,
        abs_diff(left0, total - left0),
    );
}

/// The prefix code assigned to each index of the sorted range `[s, e)`:
/// a singleton range takes `prefix` itself; a larger range splits greedily
/// and extends the prefix with 0 on the left part and 1 on the right part.
pub open spec fn spec_codes(counts: Seq<u64>, s: int, e: int, prefix: Seq<bool>) -> Seq<
    Seq<bool>,
>
    decreases e - s,
{
    if e - s <= 0 {
        Seq::empty()
    } else if e - s == 1 {
        seq![prefix]
    } else {
        let m0 = split_of(counts, s, e);
        let m = if s < m0 < e {
            m0
        } else {
            s + 1
        };
        spec_codes(counts, s, m, prefix.push(false)) + spec_codes(counts, m, e, prefix.push(true))
    }
}

/// One assigned code per index; every code extends `prefix`, and a range of
/// two or more extends it properly, by at most the range length minus one.
pub proof fn lemma_codes_shape(counts: Seq<u64>, s: int, e: int, prefix: Seq<bool>)
    requires
        s < e,
    ensures
        spec_codes(counts, s, e, prefix).len() == e - s,
        forall|k: int|
            0 <= k < e - s ==> is_prefix_of(prefix, #[trigger] spec_codes(counts, s, e, prefix)[k]),
        forall|k: int|
            0 <= k < e - s ==> (#[trigger] spec_codes(counts, s, e, prefix)[k]).len() <= prefix.len()
                + (e - s) - 1,
        e - s >= 2 ==> forall|k: int|
            0 <= k < e - s ==> (#[trigger] spec_codes(counts, s, e, prefix)[k]).len()
                > prefix.len(),
    decreases e - s,
{
    let codes = spec_codes(counts, s, e, prefix);
    if e - s == 1 {
        assert(is_prefix_of(prefix, prefix)) by {
            assert(prefix.take(prefix.len() as int) =~= prefix);
        }
    } else {
        let m0 = split_of(counts, s, e);
        let m = if s < m0 < e {
            m0
        } else {
            s + 1
        };
        let lc = spec_codes(counts, s, m, prefix.push(false));
        let rc = spec_codes(counts, m, e, prefix.push(true));
        lemma_codes_shape(counts, s, m, prefix.push(false));
        lemma_codes_shape(counts, m, e, prefix.push(true));
        assert forall|k: int| 0 <= k < e - s implies is_prefix_of(prefix, #[trigger] codes[k])
            && codes[k].len() <= prefix.len() + (e - s) - 1 && codes[k].len() > prefix.len() by {
            let sub = if k < m - s {
                prefix.push(false)
            } else {
                prefix.push(true)
            };
            let c = codes[k];
            assert(is_prefix_of(sub, c));
            assert(c.take(prefix.len() as int) =~= c.take(sub.len() as int).take(
                prefix.len() as int,
            ));
            assert(sub.take(prefix.len() as int) =~= prefix);
        }
    }
}

/// One bit string is a prefix of another.
pub open spec fn is_prefix_of(a: Seq<bool>, b: Seq<bool>) -> bool {
    a.len() <= b.len() && a == b.take(a.len() as int)
}

/// The assigned codes are prefix-free: for any two distinct indices of a
/// range, neither code is a bit-prefix of the other.
pub proof fn lemma_codes_prefix_free(counts: Seq<u64>, s: int, e: int, prefix: Seq<bool>)
    requires
        s < e,
    ensures
        forall|i: int, j: int|
            0 <= i < e - s && 0 <= j < e - s && i != j ==> !is_prefix_of(
                #[trigger] spec_codes(counts, s, e, prefix)[i],
                #[trigger] spec_codes(counts, s, e, prefix)[j],
            ),
    decreases e - s,
{
    let codes = spec_codes(counts, s, e, prefix);
    if e - s >= 2 {
        let m0 = split_of(counts, s, e);
        let m = if s < m0 < e {
            m0
        } else {
            s + 1
        };
        let lc = spec_codes(counts, s, m, prefix.push(false));
        let rc = spec_codes(counts, m, e, prefix.push(true));
        lemma_codes_shape(counts, s, m, prefix.push(false));
        lemma_codes_shape(counts, m, e, prefix.push(true));
        lemma_codes_prefix_free(counts, s, m, prefix.push(false));
        lemma_codes_prefix_free(counts, m, e, prefix.push(true));
        assert forall|i: int, j: int|
            0 <= i < e - s && 0 <= j < e - s && i != j implies !is_prefix_of(
            #[trigger] codes[i],
            #[trigger] codes[j],
        ) by {
            let p = prefix.len() as int;
            if i < m - s && j < m - s {
                assert(codes[i] == lc[i] && codes[j] == lc[j]);
            } else if i >= m - s && j >= m - s {
                assert(codes[i] == rc[i - (m - s)] && codes[j] == rc[j - (m - s)]);
            } else {
                let (a, b) = if i < m - s {
                    (codes[i], codes[j])
                } else {
                    (codes[j], codes[i])
                };
                // `a` extends prefix+0, `b` extends prefix+1; they differ at
                // index `p`, which both of them reach.
                assert(a.len() > p && b.len() > p);
                assert(a[p] == false) by {
                    assert(is_prefix_of(prefix.push(false), a));
                    assert(a.take(p + 1)[p] == prefix.push(false)[p]);
                }
                assert(b[p] == true) by {
                    assert(is_prefix_of(prefix.push(true), b));
                    assert(b.take(p + 1)[p] == prefix.push(true)[p]);
                }
                if is_prefix_of(a, b) {
                    assert(a[p] == b.take(a.len() as int)[p]);
                }
                if is_prefix_of(b, a) {
                    assert(b[p] == a.take(b.len() as int)[p]);
                }
            }
        }
    }
}

/// Finds the greedy split point of `[start, end)` and the count sum of its
/// left part.
fn find_split(enc: &Vec<Encoding>, start: usize, end: usize, sum: u64) -> (r: (usize, u64))
    requires
        start + 2 <= end <= enc@.len(),
        sum as int == range_sum(counts_of(enc@), start as int, end as int),
        sum <= u64::MAX / 2,
        forall|i: int| start <= i < end ==> 1 <= (#[trigger] enc@[i]).count,
    ensures
        r.0 == split_of(counts_of(enc@), start as int, end as int),
        start < r.0 < end,
        r.1 as int == range_sum(counts_of(enc@), start as int, r.0 as int),
{
    let ghost counts = counts_of(enc@);
    let ghost total = sum as int;
    proof {
        lemma_split_bounds(counts, start as int, end as int);
    }
    let mut left: u64 = enc[start].count;
    proof {
        assert(counts[start as int] == enc@[start as int].count);
        assert(total == counts[start as int] + range_sum(counts, start + 1, end as int));
        lemma_range_sum_lower(counts, start + 1, end as int);
        assert(range_sum(counts, start + 1, start + 1) == 0);
        assert(left as int == range_sum(counts, start as int, start + 1));
    }
    let mut best: u64 = if 2 * left >= sum {
        2 * left - sum
    } else {
        sum - 2 * left
    };
    let mut i: usize = start + 1;
    loop
        invariant
            start + 1 <= i <= end - 1,
            end <= enc@.len(),
            counts == counts_of(enc@),
            total == sum as int,
            sum as int == range_sum(counts, start as int, end as int),
            sum <= u64::MAX / 2,
            forall|k: int| start <= k < end ==> 1 <= (#[trigger] enc@[k]).count,
            1 <= left <= sum,
            left as int == range_sum(counts, start as int, i as int),
            best == abs_diff(left as int, total - left as int),
            scan_split(counts, end as int, total, i as int, left as int, best as int)
                == split_of(counts, start as int, end as int),
            start < split_of(counts, start as int, end as int) < end,
        decreases end - i,
    {
        proof {
            assert(counts[i as int] == enc@[i as int].count);
            lemma_range_sum_split(counts, start as int, i as int, end as int);
            assert(range_sum(counts, i as int, end as int) == counts[i as int] + range_sum(
                counts,
                i + 1,
                end as int,
            ));
            lemma_range_sum_lower(counts, i + 1, end as int);
            lemma_range_sum_split(counts, start as int, i as int, i + 1);
            assert(range_sum(counts, i + 1, i + 1) == 0);
            assert(range_sum(counts, i as int, i + 1) == counts[i as int]);
        }
        let c = enc[i].count;
        let left2 = left + c;
        let d = if 2 * left2 >= sum {
            2 * left2 - sum
        } else {
            sum - 2 * left2
        };
        if d < best {
            proof {
                lemma_scan_split_bounds(
                    counts,
                    end as int,
                    total,
                    i + 1,
                    left2 as int,
                    d as int,
                );
            }
            left = left2;
            best = d;
            i = i + 1;
        } else {
            return (i, left);
        }
    }
}

/// Assigns a prefix code to every statistic of the sorted range `[start, end)`,
/// extending `bit_vec`, the code prefix accumulated so far; `sum` is the
/// count total of the range.  Counts and byte values are left unchanged, and
/// the codes written are exactly the greedy assignment `spec_codes`.
pub fn generate_codes(start: usize, end: usize, enc: &mut Vec<Encoding>, bit_vec: BitVector, sum: u64)
    requires
        start < end,
        end <= old(enc)@.len(),
        bit_vec.wf(),
        bit_vec@.len() + (end - start) + 16 <= usize::MAX,
        sum as int == range_sum(counts_of(old(enc)@), start as int, end as int),
        sum <= u64::MAX / 2,
        forall|i: int| start <= i < end ==> 1 <= (#[trigger] old(enc)@[i]).count,
    ensures
        final(enc)@.len() == old(enc)@.len(),
        counts_of(final(enc)@) == counts_of(old(enc)@),
        forall|i: int|
            0 <= i < old(enc)@.len() && !(start <= i < end) ==> final(enc)@[i] == old(enc)@[i],
        forall|i: int|
            start <= i < end ==> (#[trigger] final(enc)@[i]).byte == old(enc)@[i].byte
                && final(enc)@[i].count == old(enc)@[i].count,
        forall|i: int|
            start <= i < end ==> (#[trigger] final(enc)@[i]).bit_vec is Some
                && final(enc)@[i].bit_vec->0.wf() && final(enc)@[i].bit_vec->0@ == spec_codes(
                counts_of(old(enc)@),
                start as int,
                end as int,
                bit_vec@,
            )[i - start],
    decreases end - start,
{
    let ghost counts = counts_of(old(enc)@);
    if end - start == 1 {
        let b = enc[start].byte;
        let c = enc[start].count;
        enc.set(start, Encoding { byte: b, bit_vec: Some(bit_vec), count: c });
        proof {
            assert(counts_of(enc@) =~= counts);
        }
        return ;
    }
    let (split, left_sum) = find_split(enc, start, end, sum);
    proof {
        lemma_range_sum_split(counts, start as int, split as int, end as int);
        lemma_range_sum_lower(counts, start as int, split as int);
        lemma_range_sum_lower(counts, split as int, end as int);
    }
    let right_sum = sum - left_sum;
    let mut left_code = bit_vec.duplicate();
    left_code.add_zero();
    let mut right_code = bit_vec;
    right_code.add_one();
    let ghost mid = old(enc)@;
    generate_codes(start, split, enc, left_code, left_sum);
    proof {
        assert(counts_of(enc@) =~= counts);
    }
    generate_codes(split, end, enc, right_code, right_sum);
    proof {
        assert(counts_of(enc@) =~= counts);
        lemma_codes_shape(counts, start as int, split as int, bit_vec@.push(false));
        lemma_codes_shape(counts, split as int, end as int, bit_vec@.push(true));
    }
}

/// The code assignment is deterministic: it is a function of the sorted
/// counts and the starting prefix alone, so two assignments over the same
/// statistics agree code for code.
pub proof fn lemma_assignment_deterministic(
    c1: Seq<Seq<bool>>,
    c2: Seq<Seq<bool>>,
    counts: Seq<u64>,
    s: int,
    e: int,
    prefix: Seq<bool>,
)
    requires
        c1 == spec_codes(counts, s, e, prefix),
        c2 == spec_codes(counts, s, e, prefix),
    ensures
        c1 == c2,
{
}

} // verus!
