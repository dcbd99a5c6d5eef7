//! The stream encoder.
//!
//! One pass counts byte frequencies; the sorted statistics get greedy
//! prefix codes; the codes build the prefix tree, whose serialization is
//! written into the header; a second pass re-encodes the input as a packed
//! bitstream, carrying the last, possibly partial, byte across each
//! chunk boundary.

use vstd::prelude::*;
use crate::bits::{
    BitVector, bit_in, pack_bits, bytes_bits, lemma_pack_bits_match, lemma_bit_in_concat,
};
use crate::codes::{
    Encoding, counts_of, range_sum, spec_codes, generate_codes, lemma_codes_shape,
    lemma_range_sum_split, lemma_codes_prefix_free, is_prefix_of,
};
use crate::tree::{
    CodeTree, Node, insert_seq, root_view, is_full, node_size, queue_size, ser,
    lemma_code_tree_full, lemma_ser_len, spec_insert, lemma_degenerate_tree_full,
    lemma_insert_seq_size,
};

verus! {

/// The encoder's streaming chunk size: bytes re-encoded per flush.
pub const ENCODE_CHUNK: usize = 4096;

/// Number of occurrences of `b` in `s`.
pub open spec fn count_of(s: Seq<u8>, b: u8) -> nat
    decreases s.len(),
{
    if s.len() == 0 {
        0
    } else {
        count_of(s.drop_last(), b) + if s.last() == b {
            1nat
        } else {
            0nat
        }
    }
}

pub proof fn lemma_count_le_len(s: Seq<u8>, b: u8)
    ensures
        count_of(s, b) <= s.len(),
    decreases s.len(),
{
    if s.len() > 0 {
        lemma_count_le_len(s.drop_last(), b);
    }
}

/// A byte at any position of a sequence has a positive count.
pub proof fn lemma_count_positive(s: Seq<u8>, j: int)
    requires
        0 <= j < s.len(),
    ensures
        count_of(s, s[j]) > 0,
    decreases s.len(),
{
    if j < s.len() - 1 {
        lemma_count_positive(s.drop_last(), j);
    }
}

/// Whether statistic `a` sorts at or before `b`: by greater count, ties by
/// greater byte value.
pub open spec fn stat_ge(a: (u8, u64), b: (u8, u64)) -> bool {
    a.1 > b.1 || (a.1 == b.1 && a.0 >= b.0)
}

/// A statistic inserted into a sorted list, before the first entry it
/// sorts ahead of.
pub open spec fn insert_stat(x: (u8, u64), q: Seq<(u8, u64)>) -> Seq<(u8, u64)>
    decreases q.len(),
{
    if q.len() == 0 {
        seq![x]
    } else if stat_ge(x, q[0]) {
        seq![x] + q
    } else {
        seq![q[0]] + insert_stat(x, q.drop_first())
    }
}

/// The sorted statistics of the byte values `v..256`: their occurrence
/// counts in `input`, bytes that never occur left out, ordered by
/// descending count with ties broken by descending byte value.
pub open spec fn sorted_stats_from(input: Seq<u8>, v: int) -> Seq<(u8, u64)>
    decreases 256 - v,
{
    if v < 0 || v >= 256 {
        Seq::empty()
    } else {
        let rest = sorted_stats_from(input, v + 1);
        if count_of(input, v as u8) > 0 {
            insert_stat((v as u8, count_of(input, v as u8) as u64), rest)
        } else {
            rest
        }
    }
}

/// The sorted statistics list of an input.
pub open spec fn stats_of(input: Seq<u8>) -> Seq<(u8, u64)> {
    sorted_stats_from(input, 0)
}

/// The byte/count pairs of a statistics list.
pub open spec fn pairs_of(s: Seq<Encoding>) -> Seq<(u8, u64)> {
    s.map_values(|e: Encoding| (e.byte, e.count))
}

/// The counts of a byte/count pair list.
pub open spec fn counts_of_pairs(q: Seq<(u8, u64)>) -> Seq<u64> {
    q.map_values(|p: (u8, u64)| p.1)
}

/// The bytes of a byte/count pair list.
pub open spec fn bytes_of_pairs(q: Seq<(u8, u64)>) -> Seq<u8> {
    q.map_values(|p: (u8, u64)| p.0)
}

/// Where a statistic lands in a sorted list: before the first entry it
/// sorts ahead of.
spec fn insert_pos(x: (u8, u64), q: Seq<(u8, u64)>) -> int
    decreases q.len(),
{
    if q.len() == 0 {
        0
    } else if stat_ge(x, q[0]) {
        0
    } else {
        1 + insert_pos(x, q.drop_first())
    }
}

/// Insertion splits the list around the inserted statistic.
proof fn lemma_insert_stat_split(x: (u8, u64), q: Seq<(u8, u64)>)
    ensures
        0 <= insert_pos(x, q) <= q.len(),
        insert_stat(x, q) == q.take(insert_pos(x, q)) + seq![x] + q.skip(insert_pos(x, q)),
    decreases q.len(),
{
    let p = insert_pos(x, q);
    if q.len() == 0 {
        assert(q.take(0) + seq![x] + q.skip(0) =~= seq![x]);
    } else if stat_ge(x, q[0]) {
        assert(q.take(0) + seq![x] + q.skip(0) =~= seq![x] + q);
    } else {
        let qd = q.drop_first();
        lemma_insert_stat_split(x, qd);
        let pd = insert_pos(x, qd);
        assert(q.take(p) =~= seq![q[0]] + qd.take(pd));
        assert(q.skip(p) =~= qd.skip(pd));
        assert(seq![q[0]] + (qd.take(pd) + seq![x] + qd.skip(pd)) =~= q.take(p) + seq![x]
            + q.skip(p));
    }
}

/// Every listed statistic is a byte at or above `v` that occurs in the
/// input, with its exact occurrence count; every such byte is listed.
pub proof fn lemma_stats_props(input: Seq<u8>, v: int)
    requires
        0 <= v <= 256,
        input.len() <= 0x4000_0000_0000,
    ensures
        sorted_stats_from(input, v).len() <= 256 - v,
        forall|k: int|
            0 <= k < sorted_stats_from(input, v).len() ==> {
                let p = #[trigger] sorted_stats_from(input, v)[k];
                p.1 == count_of(input, p.0) && p.1 >= 1 && p.0 >= v
            },
        forall|b: u8|
            v <= b && count_of(input, b) > 0 ==> exists|k: int|
                0 <= k < sorted_stats_from(input, v).len() && (
                #[trigger] sorted_stats_from(input, v)[k]).0 == b,
    decreases 256 - v,
{
    if v < 256 {
        lemma_stats_props(input, v + 1);
        let rest = sorted_stats_from(input, v + 1);
        let cur = sorted_stats_from(input, v);
        let c = count_of(input, v as u8);
        if c > 0 {
            lemma_count_le_len(input, v as u8);
            let x = (v as u8, c as u64);
            lemma_insert_stat_split(x, rest);
            let p = insert_pos(x, rest);
            assert(cur == rest.take(p) + seq![x] + rest.skip(p));
            assert(cur.len() == rest.len() + 1);
            assert forall|k: int| 0 <= k < cur.len() implies {
                let q = #[trigger] cur[k];
                q.1 == count_of(input, q.0) && q.1 >= 1 && q.0 >= v
            } by {
                if k < p {
                    assert(cur[k] == rest[k]);
                } else if k == p {
                    assert(cur[k] == x);
                } else {
                    assert(cur[k] == rest[k - 1]);
                }
            }
            assert forall|b: u8|
                v <= b && count_of(input, b) > 0 implies exists|k: int|
                0 <= k < cur.len() && (#[trigger] cur[k]).0 == b by {
                if b == v {
                    assert(cur[p].0 == b);
                } else {
                    let j = choose|j: int| 0 <= j < rest.len() && (#[trigger] rest[j]).0 == b;
                    if j < p {
                        assert(cur[j].0 == b);
                    } else {
                        assert(cur[j + 1].0 == b);
                    }
                }
            }
        } else {
            assert(cur == rest);
            assert forall|b: u8|
                v <= b && count_of(input, b) > 0 implies exists|k: int|
                0 <= k < cur.len() && (#[trigger] cur[k]).0 == b by {
                assert(b != v);
                let j = choose|j: int| 0 <= j < rest.len() && (#[trigger] rest[j]).0 == b;
                assert(cur[j].0 == b);
            }
        }
    }
}

/// Index of the statistic that carries byte `b`, searching from the end;
/// -1 when no statistic does.
pub open spec fn stat_index_of(stats: Seq<(u8, u64)>, b: u8) -> int
    decreases stats.len(),
{
    if stats.len() == 0 {
        -1
    } else if stats.last().0 == b {
        stats.len() - 1
    } else {
        stat_index_of(stats.drop_last(), b)
    }
}

pub proof fn lemma_stat_index(stats: Seq<(u8, u64)>, b: u8)
    ensures
        (exists|k: int| 0 <= k < stats.len() && (#[trigger] stats[k]).0 == b) ==> {
            let i = stat_index_of(stats, b);
            0 <= i < stats.len() && stats[i].0 == b
        },
        stat_index_of(stats, b) == -1 || (0 <= stat_index_of(stats, b) < stats.len()
            && stats[stat_index_of(stats, b)].0 == b),
    decreases stats.len(),
{
    if stats.len() > 0 && stats.last().0 != b {
        lemma_stat_index(stats.drop_last(), b);
        if exists|k: int| 0 <= k < stats.len() && (#[trigger] stats[k]).0 == b {
            let k = choose|k: int| 0 <= k < stats.len() && (#[trigger] stats[k]).0 == b;
            assert(k < stats.len() - 1);
            assert(stats.drop_last()[k] == stats[k]);
        }
    }
}

/// Counts every byte of the input and returns the sorted statistics, codes
/// not yet assigned.
pub fn build_statistics(input: &Vec<u8>) -> (r: Vec<Encoding>)
    requires
        input@.len() <= 0x4000_0000_0000,
    ensures
        pairs_of(r@) == stats_of(input@),
        forall|k: int| 0 <= k < r@.len() ==> (#[trigger] r@[k]).bit_vec is None,
{
    let mut table: Vec<u64> = Vec::new();
    let mut z: usize = 0;
    while z < 256
        invariant
            z <= 256,
            table@.len() == z,
            forall|b: int| 0 <= b < z ==> table@[b] == 0,
        decreases 256 - z,
    {
        table.push(0);
        z = z + 1;
    }
    proof {
        assert(input@.take(0) =~= Seq::<u8>::empty());
    }
    let mut i: usize = 0;
    while i < input.len()
        invariant
            i <= input@.len(),
            input@.len() <= 0x4000_0000_0000,
            table@.len() == 256,
            forall|b: int| 0 <= b < 256 ==> table@[b] == count_of(input@.take(i as int), (b as u8)),
        decreases input@.len() - i,
    {
        let b = input[i];
        let c = table[b as usize];
        proof {
            lemma_count_le_len(input@.take(i as int), b);
        }
        table.set(b as usize, c + 1);
        proof {
            assert(input@.take(i + 1).drop_last() =~= input@.take(i as int));
            assert(input@.take(i + 1).last() == input@[i as int]);
            assert forall|bb: int| 0 <= bb < 256 implies table@[bb] == count_of(
                input@.take(i + 1),
                (bb as u8),
            ) by {
                assert(count_of(input@.take(i + 1), bb as u8) == count_of(
                    input@.take(i as int),
                    bb as u8,
                ) + if input@[i as int] == bb as u8 {
                    1nat
                } else {
                    0nat
                });
            }
        }
        i = i + 1;
    }
    proof {
        assert(input@.take(input@.len() as int) =~= input@);
    }
    let mut stats: Vec<Encoding> = Vec::new();
    let mut v: usize = 256;
    while v > 0
        invariant
            v <= 256,
            table@.len() == 256,
            forall|b: int| 0 <= b < 256 ==> table@[b] == count_of(input@, (b as u8)),
            pairs_of(stats@) == sorted_stats_from(input@, v as int),
            forall|k: int| 0 <= k < stats@.len() ==> (#[trigger] stats@[k]).bit_vec is None,
        decreases v,
    {
        v = v - 1;
        let c = table[v];
        if c > 0 {
            insert_sorted_stat(&mut stats, v as u8, c);
        }
    }
    stats
}

/// Inserts one statistic into a sorted list, before the first entry it
/// sorts ahead of.
fn insert_sorted_stat(stats: &mut Vec<Encoding>, byte: u8, count: u64)
    requires
        forall|k: int| 0 <= k < old(stats)@.len() ==> (#[trigger] old(stats)@[k]).bit_vec is None,
    ensures
        pairs_of(final(stats)@) == insert_stat((byte, count), pairs_of(old(stats)@)),
        forall|k: int| 0 <= k < final(stats)@.len() ==> (#[trigger] final(stats)@[k]).bit_vec is None,
{
    let ghost q = pairs_of(stats@);
    let ghost x = (byte, count);
    proof {
        assert(q.skip(0) =~= q);
        assert(q.take(0) + insert_stat(x, q.skip(0)) =~= insert_stat(x, q));
    }
    let mut j: usize = 0;
    while j < stats.len() && !(count > stats[j].count || (count == stats[j].count && byte
        >= stats[j].byte))
        invariant
            j <= stats@.len(),
            q == pairs_of(stats@),
            x == (byte, count),
            insert_stat(x, q) == q.take(j as int) + insert_stat(x, q.skip(j as int)),
        decreases stats@.len() - j,
    {
        proof {
            assert(q.skip(j as int)[0] == q[j as int]);
            assert(!stat_ge(x, q[j as int]));
            assert(q.skip(j as int).drop_first() =~= q.skip(j + 1));
            assert(q.take(j as int) + (seq![q[j as int]] + insert_stat(x, q.skip(j + 1))) =~= q.take(
                j + 1,
            ) + insert_stat(x, q.skip(j + 1)));
        }
        j = j + 1;
    }
    proof {
        if j < stats@.len() {
            assert(q.skip(j as int)[0] == q[j as int]);
            assert(stat_ge(x, q[j as int]));
            assert(insert_stat(x, q.skip(j as int)) == seq![x] + q.skip(j as int));
        } else {
            assert(q.skip(j as int).len() == 0);
            assert(insert_stat(x, q.skip(j as int)) == seq![x]);
            assert(seq![x] + q.skip(j as int) =~= seq![x]);
        }
        assert(insert_stat(x, q) =~= q.take(j as int) + seq![x] + q.skip(j as int));
    }
    stats.insert(j, Encoding { byte, bit_vec: None, count });
    proof {
        assert(pairs_of(stats@) =~= q.take(j as int) + seq![x] + q.skip(j as int));
    }
}

/// The code table of an input: the greedy assignment over its sorted
/// statistics, except that a single-statistic input, whose greedy code
/// would be empty and unserializable, takes the one-bit code 0.
pub open spec fn codes_table(input: Seq<u8>) -> Seq<Seq<bool>> {
    let stats = stats_of(input);
    if stats.len() == 1 {
        seq![seq![false]]
    } else {
        spec_codes(counts_of_pairs(stats), 0, stats.len() as int, Seq::empty())
    }
}

/// The code the encoder assigns to byte `b` of the input.
pub open spec fn code_for(input: Seq<u8>, b: u8) -> Seq<bool> {
    codes_table(input)[stat_index_of(stats_of(input), b)]
}

/// The packed code bitstream for the bytes `s` of the input, in order.
pub open spec fn body_bits(input: Seq<u8>, s: Seq<u8>) -> Seq<bool>
    decreases s.len(),
{
    if s.len() == 0 {
        Seq::empty()
    } else {
        body_bits(input, s.drop_last()) + code_for(input, s.last())
    }
}

/// The encoder's prefix tree: each statistic's code inserted into a fresh
/// root in sorted order; a single-statistic input also fills the sibling
/// slot with the same byte, so the tree stays a full binary tree.
pub open spec fn tree_of(input: Seq<u8>) -> Node {
    let stats = stats_of(input);
    let n0 = Node { byte: None, left_child: None, right_child: None };
    if stats.len() == 1 {
        insert_seq(n0, seq![seq![false], seq![true]], seq![stats[0].0, stats[0].0])
    } else {
        insert_seq(n0, codes_table(input), bytes_of_pairs(stats))
    }
}

/// The compressed image of an input: a two-byte big-endian tree length,
/// the tree's redundant-bit count, the packed tree bits, the body's
/// redundant-bit count, and the packed code bitstream.  An empty input
/// takes an empty tree and an empty body.
pub open spec fn spec_encode(input: Seq<u8>) -> Seq<u8> {
    if input.len() == 0 {
        seq![0u8, 0u8, 0u8, 0u8]
    } else {
        let tree_bits = ser(seq![tree_of(input)]);
        let tree_bytes = pack_bits(tree_bits);
        let body = body_bits(input, input);
        let body_bytes = pack_bits(body);
        seq![
            (tree_bytes.len() / 256) as u8,
            (tree_bytes.len() % 256) as u8,
            (8 * tree_bytes.len() - tree_bits.len()) as u8,
        ] + tree_bytes + seq![(8 * body_bytes.len() - body.len()) as u8] + body_bytes
    }
}

/// Both header redundant-bit counts are the byte padding of their bit
/// streams, always in the range 0 to 7.
pub proof fn lemma_header_redundancy(bits: Seq<bool>)
    ensures
        0 <= 8 * pack_bits(bits).len() - bits.len() < 8,
{
}

/// The serialized prefix tree of any input is small: a full binary tree
/// over at most 256 statistics has at most 511 nodes, at most 9 bits each.
pub proof fn lemma_tree_fits(input: Seq<u8>)
    requires
        1 <= input.len() <= 0x4000_0000_0000,
    ensures
        pack_bits(ser(seq![tree_of(input)])).len() <= 575,
{
    lemma_stats_props(input, 0);
    lemma_count_positive(input, 0);
    let stats = stats_of(input);
    let n = stats.len() as int;
    assert(1 <= n <= 256);
    let n0 = Node { byte: None, left_child: None, right_child: None };
    if n == 1 {
        let dc = seq![seq![false], seq![true]];
        assert forall|k: int| 0 <= k < dc.len() implies (#[trigger] dc[k]).len() <= 1 by {
            if k == 0 {
                assert(dc[k] == seq![false]);
            } else {
                assert(dc[k] == seq![true]);
            }
        }
        lemma_insert_seq_size(n0, dc, seq![stats[0].0, stats[0].0], 1);
        assert(node_size(tree_of(input)) <= 3);
    } else {
        lemma_code_tree_full(counts_of_pairs(stats), 0, n, bytes_of_pairs(stats));
        assert(node_size(tree_of(input)) == 2 * n - 1);
    }
    assert(node_size(tree_of(input)) <= 511);
    assert(seq![tree_of(input)].drop_first() =~= Seq::<Node>::empty());
    assert(queue_size(Seq::<Node>::empty()) == 0);
    assert(queue_size(seq![tree_of(input)]) == node_size(tree_of(input)));
    lemma_ser_len(seq![tree_of(input)]);
    assert(ser(seq![tree_of(input)]).len() <= 4599);
}

/// Header consistency of an encoded stream: the leading two bytes carry
/// the packed tree's byte length, and each redundant-bit count is exactly
/// the byte padding of its bit stream, in the range 0 to 7.
pub proof fn lemma_encode_header_consistency(input: Seq<u8>)
    requires
        1 <= input.len() <= 0x4000_0000_0000,
    ensures
        ({
            let out = spec_encode(input);
            let tree_bits = ser(seq![tree_of(input)]);
            let t = pack_bits(tree_bits).len() as int;
            let body = body_bits(input, input);
            &&& out.len() == 4 + t + pack_bits(body).len()
            &&& 256 * (out[0] as int) + (out[1] as int) == t
            &&& out[2] as int == 8 * t - tree_bits.len()
            &&& 0 <= out[2] < 8
            &&& out[3 + t] as int == 8 * pack_bits(body).len() - body.len()
            &&& 0 <= out[3 + t] < 8
        }),
{
    let out = spec_encode(input);
    let tree_bits = ser(seq![tree_of(input)]);
    let tree_bytes = pack_bits(tree_bits);
    let t = tree_bytes.len() as int;
    let body = body_bits(input, input);
    let body_bytes = pack_bits(body);
    lemma_tree_fits(input);
    lemma_header_redundancy(tree_bits);
    lemma_header_redundancy(body);
    let header = seq![
        (tree_bytes.len() / 256) as u8,
        (tree_bytes.len() % 256) as u8,
        (8 * tree_bytes.len() - tree_bits.len()) as u8,
    ];
    assert(out == header + tree_bytes + seq![(8 * body_bytes.len() - body.len()) as u8]
        + body_bytes);
    assert(out[0] == header[0] && out[1] == header[1] && out[2] == header[2]);
    assert(out[3 + t] == (8 * body_bytes.len() - body.len()) as u8);
}

/// Builds the byte-to-code lookup table from the statistics' codes.
fn build_code_table(stats: &Vec<Encoding>, input: Ghost<Seq<u8>>) -> (r: Vec<Option<BitVector>>)
    requires
        pairs_of(stats@) == stats_of(input@),
        stats@.len() == codes_table(input@).len(),
        forall|k: int|
            0 <= k < stats@.len() ==> (#[trigger] stats@[k]).bit_vec is Some
                && stats@[k].bit_vec->0.wf() && stats@[k].bit_vec->0@ == codes_table(input@)[k],
    ensures
        r@.len() == 256,
        forall|b: u8|
            stat_index_of(stats_of(input@), b) >= 0 ==> (#[trigger] r@[b as int]) is Some
                && r@[b as int]->0.wf() && r@[b as int]->0@ == code_for(input@, b),
{
    let ghost pairs = stats_of(input@);
    let ghost ct = codes_table(input@);
    let mut table: Vec<Option<BitVector>> = Vec::new();
    let mut z: usize = 0;
    while z < 256
        invariant
            z <= 256,
            table@.len() == z,
            forall|b: int| 0 <= b < z ==> (#[trigger] table@[b]) is None,
        decreases 256 - z,
    {
        table.push(None);
        z = z + 1;
    }
    proof {
        assert(pairs.take(0) =~= Seq::<(u8, u64)>::empty());
    }
    let mut k: usize = 0;
    while k < stats.len()
        invariant
            k <= stats@.len(),
            table@.len() == 256,
            pairs == stats_of(input@),
            ct == codes_table(input@),
            pairs == pairs_of(stats@),
            stats@.len() == ct.len(),
            forall|j: int|
                0 <= j < stats@.len() ==> (#[trigger] stats@[j]).bit_vec is Some
                    && stats@[j].bit_vec->0.wf() && stats@[j].bit_vec->0@ == ct[j],
            forall|b: u8|
                {
                    let i = stat_index_of(pairs.take(k as int), b);
                    (i >= 0 ==> (#[trigger] table@[b as int]) is Some && table@[b as int]->0.wf()
                        && table@[b as int]->0@ == ct[i]) && (i < 0 ==> table@[b as int] is None)
                },
        decreases stats@.len() - k,
    {
        let byte = stats[k].byte;
        let code = match &stats[k].bit_vec {
            Some(c) => c.duplicate(),
            None => vstd::pervasive::unreached(),
        };
        table.set(byte as usize, Some(code));
        proof {
            assert(pairs.take(k + 1).drop_last() =~= pairs.take(k as int));
            assert(pairs.take(k + 1).last() == pairs[k as int]);
            assert(pairs[k as int].0 == stats@[k as int].byte);
            assert forall|b: u8|
                {
                    let i = stat_index_of(pairs.take(k + 1), b);
                    (i >= 0 ==> (#[trigger] table@[b as int]) is Some && table@[b as int]->0.wf()
                        && table@[b as int]->0@ == ct[i]) && (i < 0 ==> table@[b as int] is None)
                } by {
                if b == byte {
                    assert(stat_index_of(pairs.take(k + 1), b) == k);
                } else {
                    assert(stat_index_of(pairs.take(k + 1), b) == stat_index_of(
                        pairs.take(k as int),
                        b,
                    ));
                }
            }
        }
        k = k + 1;
    }
    proof {
        assert(pairs.take(stats@.len() as int) =~= pairs);
        assert forall|b: u8| stat_index_of(stats_of(input@), b) >= 0 implies (
        #[trigger] table@[b as int]) is Some && table@[b as int]->0.wf() && table@[b as int]->0@
            == code_for(input@, b) by {
            lemma_stat_index(pairs, b);
        }
    }
    table
}

/// Re-reads the input in fixed-size chunks and emits the packed code
/// bitstream: each chunk's completed bytes are flushed while the last,
/// possibly partial, byte is carried into the next chunk; the final chunk
/// flushes everything.  Returns the packed body and its redundant-bit
/// count.
fn encode_body(input: &Vec<u8>, table: &Vec<Option<BitVector>>) -> (r: (Vec<u8>, u8))
    requires
        input@.len() <= 0x4000_0000_0000,
        table@.len() == 256,
        forall|b: u8|
            count_of(input@, b) > 0 ==> (#[trigger] table@[b as int]) is Some
                && table@[b as int]->0.wf() && table@[b as int]->0@ == code_for(input@, b) && 1 <= code_for(
                input@,
                b,
            ).len() <= 255,
    ensures
        r.0@ == pack_bits(body_bits(input@, input@)),
        r.1 as int == 8 * pack_bits(body_bits(input@, input@)).len() - body_bits(
            input@,
            input@,
        ).len(),
{
    let ghost whole = body_bits(input@, input@);
    let mut body_out: Vec<u8> = Vec::new();
    let mut buffer = BitVector::with_capacity(512);
    let mut body_red: u8 = 0;
    let mut pos: usize = 0;
    proof {
        assert(input@.take(0) =~= Seq::<u8>::empty());
        assert(bytes_bits(body_out@) + buffer@ =~= body_bits(input@, input@.take(0)));
    }
    loop
        invariant_except_break
            whole == body_bits(input@, input@),
            input@.len() <= 0x4000_0000_0000,
            pos <= input@.len(),
            buffer.wf(),
            buffer@.len() <= 8,
            bytes_bits(body_out@) + buffer@ == body_bits(input@, input@.take(pos as int)),
            table@.len() == 256,
            forall|b: u8|
                count_of(input@, b) > 0 ==> (#[trigger] table@[b as int]) is Some
                    && table@[b as int]->0.wf() && table@[b as int]->0@ == code_for(input@, b) && 1 <= code_for(
                    input@,
                    b,
                ).len() <= 255,
        ensures
            body_out@ == pack_bits(body_bits(input@, input@)),
            body_red as int == 8 * pack_bits(body_bits(input@, input@)).len() - body_bits(
                input@,
                input@,
            ).len(),
        decreases input@.len() - pos,
    {
        let chunk_end = if input.len() - pos >= ENCODE_CHUNK {
            pos + ENCODE_CHUNK
        } else {
            input.len()
        };
        let chunk_len = chunk_end - pos;
        let mut j = pos;
        while j < chunk_end
            invariant
                input@.len() <= 0x4000_0000_0000,
                pos <= j <= chunk_end <= input@.len(),
                chunk_end - pos <= ENCODE_CHUNK,
                buffer.wf(),
                buffer@.len() <= 8 + 255 * (j - pos),
                buffer@.len() >= j - pos,
                bytes_bits(body_out@) + buffer@ == body_bits(input@, input@.take(j as int)),
                table@.len() == 256,
                forall|b: u8|
                    count_of(input@, b) > 0 ==> (#[trigger] table@[b as int]) is Some
                        && table@[b as int]->0.wf() && table@[b as int]->0@ == code_for(input@, b) && 1 <= code_for(
                        input@,
                        b,
                    ).len() <= 255,
            decreases chunk_end - j,
        {
            let b = input[j];
            proof {
                lemma_count_positive(input@, j as int);
            }
            match &table[b as usize] {
                Some(code) => {
                    buffer.append(code);
                },
                None => {
                    proof {
                        assert(false);
                    }
                },
            }
            proof {
                assert(input@.take(j + 1).drop_last() =~= input@.take(j as int));
                assert(input@.take(j + 1).last() == input@[j as int]);
                assert(bytes_bits(body_out@) + buffer@ =~= body_bits(input@, input@.take(j + 1)));
            }
            j = j + 1;
        }
        buffer.shrink();
        if chunk_len != ENCODE_CHUNK {
            let ghost pre = body_out@;
            let ghost tail_bits = buffer@;
            let bytes_ref = buffer.get_bytes();
            let blen = bytes_ref.len();
            body_red = (blen * 8 - buffer.bit_size()) as u8;
            let mut k2: usize = 0;
            while k2 < blen
                invariant
                    k2 <= blen,
                    blen == bytes_ref@.len(),
                    body_out@ == pre + bytes_ref@.take(k2 as int),
                decreases blen - k2,
            {
                let byte = bytes_ref[k2];
                body_out.push(byte);
                proof {
                    assert(body_out@ =~= pre + bytes_ref@.take(k2 + 1));
                }
                k2 = k2 + 1;
            }
            proof {
                assert(bytes_ref@.take(blen as int) =~= bytes_ref@);
                assert(input@.take(input@.len() as int) =~= input@);
                let total = whole.len() as int;
                assert(bytes_bits(pre) + tail_bits == whole);
                assert(8 * pre.len() + tail_bits.len() == total);
                assert(body_out@.len() == pre.len() + (tail_bits.len() + 7) / 8);
                assert(body_out@.len() == (total + 7) / 8);
                assert forall|i: int| 0 <= i < total implies bit_in(body_out@, i) == whole[i] by {
                    lemma_bit_in_concat(pre, bytes_ref@, i);
                    if i < 8 * pre.len() {
                        assert(bytes_bits(pre)[i] == whole[i]);
                    } else {
                        assert(bit_in(bytes_ref@, i - 8 * pre.len()) == tail_bits[i - 8
                            * pre.len()]);
                    }
                }
                assert forall|i: int| total <= i < 8 * body_out@.len() implies !bit_in(
                    body_out@,
                    i,
                ) by {
                    lemma_bit_in_concat(pre, bytes_ref@, i);
                }
                lemma_pack_bits_match(body_out@, whole);
            }
            break ;
        } else {
            let ghost pre = body_out@;
            let ghost tail_bits = buffer@;
            let partial = buffer.get_bytes_but_last();
            let plen = partial.len();
            let mut k2: usize = 0;
            while k2 < plen
                invariant
                    k2 <= plen,
                    plen == partial@.len(),
                    body_out@ == pre + partial@.take(k2 as int),
                decreases plen - k2,
            {
                let byte = partial[k2];
                body_out.push(byte);
                proof {
                    assert(body_out@ =~= pre + partial@.take(k2 + 1));
                }
                k2 = k2 + 1;
            }
            let carried = BitVector::from_last_byte(&buffer);
            buffer = carried;
            proof {
                assert(partial@.take(plen as int) =~= partial@);
                let cut = 8 * ((tail_bits.len() - 1) / 8);
                assert((tail_bits.len() - 1) / 8 == (tail_bits.len() + 7) / 8 - 1);
                assert(8 * partial@.len() == cut);
                assert(buffer@ == tail_bits.skip(cut));
                assert(bytes_bits(body_out@) + buffer@ =~= bytes_bits(pre) + tail_bits) by {
                    assert forall|i: int|
                        0 <= i < 8 * body_out@.len() implies bit_in(body_out@, i) == (bytes_bits(
                        pre,
                    ) + tail_bits)[i] by {
                        lemma_bit_in_concat(pre, partial@, i);
                        if i >= 8 * pre.len() {
                            assert(bit_in(partial@, i - 8 * pre.len()) == tail_bits[i - 8
                                * pre.len()]);
                        }
                    }
                }
            }
            pos = chunk_end;
        }
    }
    (body_out, body_red)
}

/// Compresses the input: counts byte frequencies, assigns prefix codes
/// over the sorted statistics, writes the header with the serialized
/// prefix tree, and re-encodes the input as a packed bitstream.  The tree
/// over at most 256 statistics has at most 511 nodes, so its serialization
/// always fits the header's two-byte length field.
#[verifier::rlimit(100)]
pub fn encode_bytes(input: &Vec<u8>) -> (r: Vec<u8>)
    requires
        input@.len() <= 0x4000_0000_0000,
    ensures
        r@ == spec_encode(input@),
{
    if input.len() == 0 {
        let mut out: Vec<u8> = Vec::new();
        out.push(0u8);
        out.push(0u8);
        out.push(0u8);
        out.push(0u8);
        proof {
            assert(out@ =~= spec_encode(input@));
        }
        return out;
    }
    let ghost stats_spec = stats_of(input@);
    let ghost ct = codes_table(input@);
    let ghost counts = counts_of_pairs(stats_spec);
    let ghost n0 = Node { byte: None, left_child: None, right_child: None };
    let mut stats = build_statistics(input);
    proof {
        lemma_stats_props(input@, 0);
        lemma_count_positive(input@, 0);
        assert(exists|k: int|
            0 <= k < stats_spec.len() && (#[trigger] stats_spec[k]).0 == input@[0]);
        assert(stats@.len() == stats_spec.len());
        assert(counts_of(stats@) =~= counts);
        assert forall|i: int| 0 <= i < counts.len() implies 1 <= #[trigger] counts[i]
            <= 0x4000_0000_0000 by {
            assert(stats_spec[i].1 == count_of(input@, stats_spec[i].0));
            lemma_count_le_len(input@, stats_spec[i].0);
        }
    }
    let n = stats.len();
    if n == 1 {
        let mut code0 = BitVector::with_capacity(8);
        code0.add_zero();
        let b0 = stats[0].byte;
        let c0 = stats[0].count;
        stats.set(0, Encoding { byte: b0, bit_vec: Some(code0), count: c0 });
        proof {
            assert(Seq::<bool>::empty().push(false) =~= seq![false]);
            assert(pairs_of(stats@) =~= stats_spec);
            assert(ct == seq![seq![false]]);
            assert(stats@[0].bit_vec->0@ == ct[0]);
        }
    } else {
        let mut sum: u64 = 0;
        let mut k: usize = 0;
        proof {
            assert(range_sum(counts, 0, 0) == 0);
        }
        while k < n
            invariant
                k <= n,
                n == stats@.len(),
                counts == counts_of(stats@),
                forall|i: int| 0 <= i < counts.len() ==> 1 <= #[trigger] counts[i]
                    <= 0x4000_0000_0000,
                sum as int == range_sum(counts, 0, k as int),
                sum <= k * 0x4000_0000_0000,
                n <= 256,
            decreases n - k,
        {
            proof {
                lemma_range_sum_split(counts, 0, k as int, k + 1);
                assert(range_sum(counts, k + 1, k + 1) == 0);
                assert(range_sum(counts, k as int, k + 1) == counts[k as int]);
                assert(counts[k as int] == stats@[k as int].count);
            }
            let c = stats[k].count;
            sum = sum + c;
            k = k + 1;
        }
        let empty_prefix = BitVector::with_capacity(8);
        proof {
            assert forall|i: int| 0 <= i < n implies 1 <= (#[trigger] stats@[i]).count by {
                assert(counts[i] == stats@[i].count);
            }
        }
        generate_codes(0, n, &mut stats, empty_prefix, sum);
        proof {
            assert(pairs_of(stats@) =~= stats_spec);
            assert(counts_of(stats@) =~= counts);
            assert(ct == spec_codes(counts, 0, n as int, Seq::<bool>::empty()));
        }
    }
    proof {
        if n != 1 {
            lemma_codes_shape(counts, 0, n as int, Seq::<bool>::empty());
        } else {
            assert(ct[0] =~= seq![false]);
            assert(ct[0].len() == 1);
        }
        assert(ct.len() == n);
        assert forall|j: int| 0 <= j < n implies 1 <= (#[trigger] ct[j]).len() <= 255 by {
            if n != 1 {
                assert(ct[j].len() <= 0 + n - 1);
                assert(ct[j].len() > 0);
            }
        }
    }
    let table = build_code_table(&stats, Ghost(input@));
    let mut code_tree = CodeTree::new();
    let ghost all_bytes = bytes_of_pairs(stats_spec);
    proof {
        assert(ct.take(0) =~= Seq::<Seq<bool>>::empty());
        assert(all_bytes.take(0) =~= Seq::<u8>::empty());
    }
    let mut k: usize = 0;
    while k < n
        invariant
            k <= n,
            n == stats@.len(),
            n == ct.len(),
            pairs_of(stats@) == stats_spec,
            all_bytes == bytes_of_pairs(stats_spec),
            n0 == (Node { byte: None, left_child: None, right_child: None }),
            forall|j: int|
                0 <= j < n ==> (#[trigger] stats@[j]).bit_vec is Some
                    && stats@[j].bit_vec->0.wf() && stats@[j].bit_vec->0@ == ct[j],
            code_tree.root is Some,
            root_view(code_tree) == Some(
                insert_seq(n0, ct.take(k as int), all_bytes.take(k as int)),
            ),
        decreases n - k,
    {
        let b = stats[k].byte;
        match &stats[k].bit_vec {
            Some(c) => {
                code_tree.insert(c, b);
            },
            None => {
                proof {
                    assert(false);
                }
            },
        }
        proof {
            assert(ct.take(k + 1).drop_last() =~= ct.take(k as int));
            assert(all_bytes.take(k + 1).drop_last() =~= all_bytes.take(k as int));
            assert(ct.take(k + 1).last() == ct[k as int]);
            assert(all_bytes.take(k + 1).last() == stats_spec[k as int].0);
            assert(stats_spec[k as int].0 == stats@[k as int].byte);
        }
        k = k + 1;
    }
    proof {
        assert(ct.take(n as int) =~= ct);
        assert(all_bytes.take(n as int) =~= all_bytes);
    }
    if n == 1 {
        let b0 = stats[0].byte;
        let mut one = BitVector::with_capacity(8);
        one.add_one();
        code_tree.insert(&one, b0);
        proof {
            let dc = seq![seq![false], seq![true]];
            let dv = seq![stats_spec[0].0, stats_spec[0].0];
            assert(dc.drop_last() =~= seq![seq![false]]);
            assert(dv.drop_last() =~= seq![stats_spec[0].0]);
            assert(ct =~= seq![seq![false]]);
            assert(all_bytes =~= seq![stats_spec[0].0]);
            assert(one@ =~= seq![true]);
            assert(b0 == stats_spec[0].0);
            assert(insert_seq(n0, dc, dv) == spec_insert(
                insert_seq(n0, dc.drop_last(), dv.drop_last()),
                seq![true],
                stats_spec[0].0,
            ));
            assert(root_view(code_tree) == Some(tree_of(input@)));
            lemma_degenerate_tree_full(stats_spec[0].0);
            lemma_insert_seq_size(n0, dc, dv, 1);
            assert(node_size(tree_of(input@)) <= 3);
        }
    } else {
        proof {
            lemma_code_tree_full(counts, 0, n as int, all_bytes);
            assert(root_view(code_tree) == Some(tree_of(input@)));
            assert(node_size(tree_of(input@)) == 2 * n - 1);
        }
    }
    proof {
        assert(is_full(root_view(code_tree)->0));
        assert(node_size(tree_of(input@)) <= 511);
        assert(18 * node_size(root_view(code_tree)->0) + 64 <= usize::MAX);
    }
    let tree_bits = code_tree.to_bitvector();
    let tree_nbits = tree_bits.bit_size();
    let tree_bytes = tree_bits.get_bytes();
    let tlen = tree_bytes.len();
    proof {
        lemma_pack_bits_match(tree_bytes@, tree_bits@);
        assert(tree_bits@ == ser(seq![tree_of(input@)]));
        // the packed tree always fits the header's two-byte length field
        assert(seq![tree_of(input@)].drop_first() =~= Seq::<Node>::empty());
        assert(queue_size(Seq::<Node>::empty()) == 0);
        assert(queue_size(seq![tree_of(input@)]) == node_size(tree_of(input@)));
        lemma_ser_len(seq![tree_of(input@)]);
        assert(tree_bits@.len() <= 9 * 511);
        assert(tlen <= 575);
    }
    let mut out: Vec<u8> = Vec::new();
    out.push((tlen / 256) as u8);
    out.push((tlen % 256) as u8);
    out.push((tlen * 8 - tree_nbits) as u8);
    let ghost header3 = seq![
        (tlen / 256) as u8,
        (tlen % 256) as u8,
        (8 * tlen - tree_nbits as int) as u8,
    ];
    proof {
        assert(out@ =~= header3 + tree_bytes@.take(0));
    }
    let mut k: usize = 0;
    while k < tlen
        invariant
            k <= tlen,
            tlen == tree_bytes@.len(),
            out@ == header3 + tree_bytes@.take(k as int),
        decreases tlen - k,
    {
        let byte = tree_bytes[k];
        out.push(byte);
        proof {
            assert(out@ =~= header3 + tree_bytes@.take(k + 1));
        }
        k = k + 1;
    }
    proof {
        assert(tree_bytes@.take(tlen as int) =~= tree_bytes@);
        assert forall|b: u8| count_of(input@, b) > 0 implies (#[trigger] table@[b as int]) is Some
            && table@[b as int]->0.wf() && table@[b as int]->0@ == code_for(input@, b) && 1
            <= code_for(input@, b).len() <= 255 by {
            lemma_stat_index(stats_spec, b);
        }
    }
    let (body_out, body_red) = encode_body(input, &table);
    out.push(body_red);
    let ghost pre_out = out@;
    let mut k2: usize = 0;
    while k2 < body_out.len()
        invariant
            k2 <= body_out@.len(),
            out@ == pre_out + body_out@.take(k2 as int),
        decreases body_out@.len() - k2,
    {
        let byte = body_out[k2];
        out.push(byte);
        proof {
            assert(out@ =~= pre_out + body_out@.take(k2 + 1));
        }
        k2 = k2 + 1;
    }
    proof {
        assert(body_out@.take(body_out@.len() as int) =~= body_out@);
        assert(out@ =~= spec_encode(input@));
    }
    out
}

/// Prefix-freedom of the assigned table: for any two distinct byte values
/// present in an input's statistics, neither assigned code is a bit-prefix
/// of the other.
pub proof fn lemma_code_table_prefix_free(input: Seq<u8>)
    ensures
        forall|i: int, j: int|
            0 <= i < codes_table(input).len() && 0 <= j < codes_table(input).len() && i != j
                ==> !is_prefix_of(
                #[trigger] codes_table(input)[i],
                #[trigger] codes_table(input)[j],
            ),
{
    let stats = stats_of(input);
    let ct = codes_table(input);
    if stats.len() >= 2 {
        lemma_codes_shape(counts_of_pairs(stats), 0, stats.len() as int, Seq::<bool>::empty());
        lemma_codes_prefix_free(
            counts_of_pairs(stats),
            0,
            stats.len() as int,
            Seq::<bool>::empty(),
        );
        assert forall|i: int, j: int|
            0 <= i < ct.len() && 0 <= j < ct.len() && i != j implies !is_prefix_of(
            #[trigger] ct[i],
            #[trigger] ct[j],
        ) by {
            assert(ct[i] == spec_codes(
                counts_of_pairs(stats),
                0,
                stats.len() as int,
                Seq::<bool>::empty(),
            )[i]);
        }
    } else if stats.len() == 1 {
        assert(ct.len() == 1);
    } else {
        assert(ct.len() == 0);
    }
}

/// Occurrence counts in a uniform sequence: its one byte value is seen as
/// many times as the length, every other value never.
proof fn lemma_uniform_count(b: u8, x: u8, n: nat)
    ensures
        count_of(Seq::new(n, |i: int| b), x) == if x == b {
            n
        } else {
            0nat
        },
    decreases n,
{
    if n > 0 {
        lemma_uniform_count(b, x, (n - 1) as nat);
        assert(Seq::new(n, |i: int| b).drop_last() =~= Seq::new((n - 1) as nat, |i: int| b));
        assert(Seq::new(n, |i: int| b).last() == b);
    } else {
        assert(Seq::new(0nat, |i: int| b) =~= Seq::<u8>::empty());
        assert(count_of(Seq::<u8>::empty(), x) == 0);
    }
}

/// A uniform input has exactly one statistic: its byte value, with the
/// whole length as its count.
pub proof fn lemma_uniform_stats(b: u8, n: nat, v: int)
    requires
        0 <= v <= 256,
        1 <= n <= 0x4000_0000_0000,
    ensures
        sorted_stats_from(Seq::new(n, |i: int| b), v) == if v <= b {
            seq![(b, n as u64)]
        } else {
            Seq::<(u8, u64)>::empty()
        },
    decreases 256 - v,
{
    if v < 256 {
        lemma_uniform_stats(b, n, v + 1);
        lemma_uniform_count(b, v as u8, n);
        if v as u8 == b {
            assert(insert_stat((b, n as u64), Seq::<(u8, u64)>::empty()) == seq![(b, n as u64)]);
        }
    }
}

/// The body of a uniform input is one zero bit per input byte.
pub proof fn lemma_uniform_body_bits(b: u8, n: nat, k: nat)
    requires
        k <= n,
        1 <= n <= 0x4000_0000_0000,
    ensures
        body_bits(Seq::new(n, |i: int| b), Seq::new(k, |i: int| b)) == Seq::new(
            k,
            |i: int| false,
        ),
    decreases k,
{
    let input = Seq::new(n, |i: int| b);
    if k == 0 {
        assert(Seq::new(0nat, |i: int| b).len() == 0);
        assert(Seq::new(0nat, |i: int| false) =~= Seq::<bool>::empty());
        assert(body_bits(input, Seq::new(0nat, |i: int| b)) == Seq::<bool>::empty());
    } else {
        lemma_uniform_body_bits(b, n, (k - 1) as nat);
        lemma_uniform_stats(b, n, 0);
        let stats = stats_of(input);
        assert(stats == seq![(b, n as u64)]);
        assert(stats.last().0 == b);
        assert(stat_index_of(stats, b) == 0);
        assert(codes_table(input) == seq![seq![false]]);
        assert(code_for(input, b) == seq![false]);
        assert(Seq::new(k, |i: int| b).drop_last() =~= Seq::new((k - 1) as nat, |i: int| b));
        assert(Seq::new(k, |i: int| b).last() == b);
        assert(Seq::new((k - 1) as nat, |i: int| false) + seq![false] =~= Seq::new(
            k,
            |i: int| false,
        ));
    }
}

} // verus!
