//! The stream decoder.
//!
//! The header fields are read in the order written, the prefix tree is
//! rebuilt from its level-order serialization, and the packed body is
//! walked bit by bit through the tree, one fixed-size chunk at a time with
//! a one-chunk lookahead: only the true final chunk has the header's
//! redundant bits trimmed.

use vstd::prelude::*;
use crate::DecodeError;
use crate::bits::{BitVector, bit_in, pack_bits, lemma_pack_bits_inverse};
use crate::encode::{
    spec_encode, stats_of, codes_table, code_for, stat_index_of, body_bits, tree_of,
    lemma_uniform_stats, lemma_uniform_body_bits,
};
use crate::tree::{
    CodeTree, Node, root_view, spec_tokens, tree_of_tokens, ser, is_full,
    lemma_degenerate_tree_full, lemma_degenerate_tree_stream,
};

verus! {

/// The decoder's streaming chunk size: body bytes walked per read.
pub const DECODE_CHUNK: usize = 2048;

/// The length of the final chunk of a body of `len` bytes.
pub open spec fn last_chunk_len(len: int) -> int {
    (len - 1) % (DECODE_CHUNK as int) + 1
}

/// Walks the bits from index `i` on through the tree, starting at `cur`:
/// each bit selects a child, a child holding a byte emits it and resets
/// the walk to the root, and a missing child fails the decode.
pub open spec fn spec_walk(root: Node, cur: Node, bits: Seq<bool>, i: int) -> Result<
    Seq<u8>,
    DecodeError,
>
    decreases bits.len() - i,
{
    if i < 0 || i >= bits.len() {
        Ok(Seq::empty())
    } else {
        let c = if bits[i] {
            cur.right_child
        } else {
            cur.left_child
        };
        match c {
            None => Err(DecodeError::TreeWalkOutOfRange),
            Some(ch) => match ch.byte {
                Some(b) => match spec_walk(root, root, bits, i + 1) {
                    Ok(rest) => Ok(seq![b] + rest),
                    Err(e) => Err(e),
                },
                None => spec_walk(root, *ch, bits, i + 1),
            },
        }
    }
}

/// The decoded image of a compressed byte stream, or the typed failure
/// that rejects it.
pub open spec fn spec_decode(input: Seq<u8>) -> Result<Seq<u8>, DecodeError> {
    if input.len() == 0 {
        Ok(Seq::empty())
    } else if input.len() < 4 {
        Err(DecodeError::MalformedHeader)
    } else {
        let t = 256 * (input[0] as int) + (input[1] as int);
        let tree_red = input[2] as int;
        if input.len() < 4 + t || tree_red > 8 * t {
            Err(DecodeError::MalformedHeader)
        } else {
            let tree_bytes = input.subrange(3, 3 + t);
            let tree_bits = Seq::new((8 * t - tree_red) as nat, |i: int| bit_in(tree_bytes, i));
            match spec_tokens(tree_bits) {
                None => Err(DecodeError::MalformedHeader),
                Some(tokens) => {
                    let full = match tree_of_tokens(tokens) {
                        Some(n) => is_full(n),
                        None => false,
                    };
                    if tree_bits.len() > 0 && !full {
                        // the tree bitstream ended with child slots still open
                        Err(DecodeError::MalformedHeader)
                    } else {
                        let body_red = input[3 + t] as int;
                        let body = input.skip(4 + t);
                        if body.len() == 0 {
                            Ok(Seq::empty())
                        } else if body_red > 8 * last_chunk_len(body.len() as int) {
                            Err(DecodeError::MalformedHeader)
                        } else {
                            let bits = Seq::new(
                                (8 * body.len() - body_red) as nat,
                                |i: int| bit_in(body, i),
                            );
                            match tree_of_tokens(tokens) {
                                None => Err(DecodeError::TreeWalkOutOfRange),
                                Some(root) => spec_walk(root, root, bits, 0),
                            }
                        }
                    }
                },
            }
        }
    }
}

proof fn lemma_bit_offset(p: int, i: int)
    by (nonlinear_arith)
    requires
        p >= 0,
        0 <= i,
    ensures
        (8 * p + i) / 8 == p + i / 8,
        (8 * p + i) % 8 == i % 8,
{
}

/// Decompresses a byte stream produced by the encoder: reads the header,
/// rebuilds the prefix tree, rejects one that is not a full binary tree,
/// and walks the packed body bit by bit, one chunk at a time, emitting one
/// byte per leaf reached.
pub fn decode_bytes(input: &Vec<u8>) -> (r: Result<Vec<u8>, DecodeError>)
    ensures
        match r {
            Ok(out) => spec_decode(input@) is Ok && out@ == spec_decode(input@)->Ok_0,
            Err(e) => spec_decode(input@) == Err::<Seq<u8>, DecodeError>(e),
        },
{
    if input.len() == 0 {
        let out: Vec<u8> = Vec::new();
        return Ok(out);
    }
    if input.len() < 4 {
        return Err(DecodeError::MalformedHeader);
    }
    let t = (input[0] as usize) * 256 + (input[1] as usize);
    let tree_red = input[2] as usize;
    if input.len() < 4 + t || tree_red > 8 * t {
        return Err(DecodeError::MalformedHeader);
    }
    let mut tree_buffer: Vec<u8> = Vec::new();
    let mut k: usize = 0;
    while k < t
        invariant
            k <= t,
            4 + t <= input@.len(),
            input@.len() <= usize::MAX,
            tree_buffer@ == input@.subrange(3, 3 + k),
        decreases t - k,
    {
        let byte = input[3 + k];
        tree_buffer.push(byte);
        proof {
            assert(tree_buffer@ =~= input@.subrange(3, 3 + k + 1));
        }
        k = k + 1;
    }
    let tree_bit_vec = BitVector::from_vec(tree_buffer.as_slice(), tree_red);
    let ghost tree_bits = Seq::new(
        (8 * t - tree_red) as nat,
        |i: int| bit_in(input@.subrange(3, 3 + t as int), i),
    );
    proof {
        assert(tree_bit_vec@ =~= tree_bits);
    }
    let tree = match CodeTree::from_bit_vector(&tree_bit_vec) {
        Ok(tr) => tr,
        Err(e) => {
            return Err(e);
        },
    };
    let ghost tokens = spec_tokens(tree_bits)->0;
    // a nonempty tree bitstream must rebuild a full binary tree: anything
    // else left open child slots, a malformed header
    if tree_bit_vec.bit_size() > 0 {
        let full = match &tree.root {
            Some(b) => b.is_full_binary(),
            None => false,
        };
        if !full {
            return Err(DecodeError::MalformedHeader);
        }
    }
    let body_red = input[3 + t] as usize;
    let body_start = 4 + t;
    let body_len = input.len() - body_start;
    let ghost body = input@.skip(body_start as int);
    if body_len == 0 {
        let out: Vec<u8> = Vec::new();
        proof {
            assert(spec_decode(input@) == Ok::<Seq<u8>, DecodeError>(Seq::empty()));
            assert(out@ =~= Seq::<u8>::empty());
        }
        return Ok(out);
    }
    let last_len = (body_len - 1) % DECODE_CHUNK + 1;
    if body_red > 8 * last_len {
        return Err(DecodeError::MalformedHeader);
    }
    let root: &Node = match &tree.root {
        Some(b) => &**b,
        None => {
            return Err(DecodeError::TreeWalkOutOfRange);
        },
    };
    let ghost root_n = root_view(tree)->0;
    let ghost bits = Seq::new((8 * body.len() - body_red) as nat, |i: int| bit_in(body, i));
    proof {
        assert(spec_decode(input@) == spec_walk(root_n, root_n, bits, 0));
    }
    let mut out: Vec<u8> = Vec::new();
    let mut current: &Node = root;
    let mut pos: usize = 0;
    loop
        invariant_except_break
            body_len == body.len(),
            body == input@.skip(body_start as int),
            body_start == 4 + t,
            4 + t <= input@.len(),
            input@.len() <= usize::MAX,
            0 < body_len,
            pos < body_len,
            pos % DECODE_CHUNK == 0,
            body_red <= 8 * last_chunk_len(body.len() as int),
            body_red <= 8 * DECODE_CHUNK,
            bits == Seq::new((8 * body.len() - body_red) as nat, |i: int| bit_in(body, i)),
            *root == root_n,
            spec_decode(input@) == spec_walk(root_n, root_n, bits, 0),
            (match spec_walk(root_n, *current, bits, 8 * pos) {
                Ok(rest) => spec_walk(root_n, root_n, bits, 0) == Ok::<Seq<u8>, DecodeError>(
                    out@ + rest,
                ),
                Err(e) => spec_walk(root_n, root_n, bits, 0) == Err::<Seq<u8>, DecodeError>(e),
            }),
        ensures
            spec_walk(root_n, root_n, bits, 0) == Ok::<Seq<u8>, DecodeError>(out@),
            spec_decode(input@) == spec_walk(root_n, root_n, bits, 0),
        decreases body_len - pos,
    {
        let chunk_end = if body_len - pos >= DECODE_CHUNK {
            pos + DECODE_CHUNK
        } else {
            body_len
        };
        let is_final = chunk_end == body_len;
        let chunk_len = chunk_end - pos;
        let mut chunk: Vec<u8> = Vec::new();
        let mut k2: usize = pos;
        while k2 < chunk_end
            invariant
                pos <= k2 <= chunk_end,
                chunk_end <= body_len,
                body_len == body.len(),
                body == input@.skip(body_start as int),
                body_start + body_len == input@.len(),
                input@.len() <= usize::MAX,
                chunk@ == body.subrange(pos as int, k2 as int),
            decreases chunk_end - k2,
        {
            let byte = input[body_start + k2];
            chunk.push(byte);
            proof {
                assert(chunk@ =~= body.subrange(pos as int, k2 + 1));
            }
            k2 = k2 + 1;
        }
        proof {
            if is_final {
                // the final chunk's length is the last-chunk length, so the
                // redundant count fits it
                assert(body_len - 1 == pos + (chunk_len - 1));
                assert((body_len - 1) % (DECODE_CHUNK as int) == chunk_len - 1)
                    by (nonlinear_arith)
                    requires
                        pos % DECODE_CHUNK == 0,
                        0 < chunk_len <= DECODE_CHUNK,
                        body_len - 1 == pos + (chunk_len - 1),
                        DECODE_CHUNK == 2048,
                ;
            }
        }
        let bv = if is_final {
            BitVector::from_vec(chunk.as_slice(), body_red)
        } else {
            BitVector::from_vec(chunk.as_slice(), 0)
        };
        let nbits = bv.bit_size();
        proof {
            assert forall|i: int| 0 <= i < 8 * chunk_len implies bit_in(chunk@, i) == bit_in(
                body,
                8 * pos + i,
            ) by {
                lemma_bit_offset(pos as int, i);
                assert(chunk@[i / 8] == body[pos + i / 8]);
            }
            assert(8 * pos + nbits <= bits.len());
            assert forall|i: int| 0 <= i < nbits implies bv@[i] == bits[8 * pos + i] by {}
            if is_final {
                assert(8 * pos + nbits == bits.len());
            }
        }
        let mut i: usize = 0;
        while i < nbits
            invariant
                i <= nbits,
                nbits == bv@.len(),
                bv.wf(),
                8 * pos + nbits <= bits.len(),
                forall|j: int| 0 <= j < nbits ==> bv@[j] == bits[8 * pos + j],
                *root == root_n,
                spec_decode(input@) == spec_walk(root_n, root_n, bits, 0),
                (match spec_walk(root_n, *current, bits, 8 * pos + i) {
                    Ok(rest) => spec_walk(root_n, root_n, bits, 0) == Ok::<Seq<u8>, DecodeError>(
                        out@ + rest,
                    ),
                    Err(e) => spec_walk(root_n, root_n, bits, 0) == Err::<Seq<u8>, DecodeError>(
                        e,
                    ),
                }),
            decreases nbits - i,
        {
            let bit = match bv.get_bit(i) {
                Some(b) => b,
                None => false,
            };
            let ghost idx = 8 * pos + i;
            proof {
                assert(bit == bits[idx]);
            }
            let next = match CodeTree::move_node(current, bit) {
                Some(nn) => nn,
                None => {
                    proof {
                        assert(spec_walk(root_n, *current, bits, idx)
                            == Err::<Seq<u8>, DecodeError>(DecodeError::TreeWalkOutOfRange));
                    }
                    return Err(DecodeError::TreeWalkOutOfRange);
                },
            };
            proof {
                let c = if bit {
                    current.right_child
                } else {
                    current.left_child
                };
                assert(c is Some);
                assert(*next == *(c->0));
            }
            match next.byte {
                Some(value) => {
                    let ghost out_old = out@;
                    out.push(value);
                    proof {
                        if spec_walk(root_n, root_n, bits, idx + 1) is Ok {
                            let rest = spec_walk(root_n, root_n, bits, idx + 1)->Ok_0;
                            assert(out@ + rest =~= out_old + (seq![value] + rest));
                        }
                    }
                    current = root;
                },
                None => {
                    current = next;
                },
            }
            i = i + 1;
        }
        if is_final {
            proof {
                assert(8 * pos + nbits == bits.len());
                assert(spec_walk(root_n, *current, bits, bits.len() as int) == Ok::<
                    Seq<u8>,
                    DecodeError,
                >(Seq::empty()));
                assert(out@ + Seq::<u8>::empty() =~= out@);
            }
            break ;
        } else {
            pos = chunk_end;
        }
    }
    Ok(out)
}

/// Round trip of the empty input: its degenerate header, an empty tree and
/// a zero-length body, decodes back to the empty byte sequence.
pub proof fn lemma_roundtrip_empty()
    ensures
        spec_decode(spec_encode(Seq::empty())) == Ok::<Seq<u8>, DecodeError>(Seq::empty()),
{
    let enc = spec_encode(Seq::<u8>::empty());
    assert(enc == seq![0u8, 0u8, 0u8, 0u8]);
    assert(enc.len() == 4);
    assert(256 * (enc[0] as int) + (enc[1] as int) == 0);
    let tree_bytes = enc.subrange(3, 3);
    let tree_bits = Seq::new(0, |i: int| bit_in(tree_bytes, i));
    assert(spec_tokens(tree_bits) == Some(Seq::<Option<u8>>::empty()));
    assert(enc.skip(4).len() == 0);
}

/// Walking any number of zero bits through the degenerate tree emits its
/// one byte value once per bit.
proof fn lemma_walk_uniform(t: Node, leaf: Node, b: u8, bits: Seq<bool>, i: int)
    requires
        0 <= i <= bits.len(),
        forall|k: int| 0 <= k < bits.len() ==> !bits[k],
        t.left_child == Some(Box::new(leaf)),
        leaf == (Node { byte: Some(b), left_child: None, right_child: None }),
    ensures
        spec_walk(t, t, bits, i) == Ok::<Seq<u8>, DecodeError>(
            Seq::new((bits.len() - i) as nat, |k: int| b),
        ),
    decreases bits.len() - i,
{
    if i == bits.len() {
        assert(Seq::new(0nat, |k: int| b) =~= Seq::<u8>::empty());
    } else {
        lemma_walk_uniform(t, leaf, b, bits, i + 1);
        assert(!bits[i]);
        assert(seq![b] + Seq::new((bits.len() - i - 1) as nat, |k: int| b) =~= Seq::new(
            (bits.len() - i) as nat,
            |k: int| b,
        ));
    }
}

/// Round trip of a uniform input: any number of copies of a single byte
/// value engages the degenerate one-statistic path, and the compressed
/// stream decodes back to exactly that input.
pub proof fn lemma_roundtrip_uniform(b: u8, n: nat)
    requires
        1 <= n <= 0x4000_0000_0000,
    ensures
        spec_decode(spec_encode(Seq::new(n, |i: int| b))) == Ok::<Seq<u8>, DecodeError>(
            Seq::new(n, |i: int| b),
        ),
{
    let input = Seq::new(n, |i: int| b);
    lemma_uniform_stats(b, n, 0);
    let stats = stats_of(input);
    assert(stats == seq![(b, n as u64)]);
    let ct = codes_table(input);
    assert(ct == seq![seq![false]]);
    let leaf = Node { byte: Some(b), left_child: None, right_child: None };
    let t = Node {
        byte: None,
        left_child: Some(Box::new(leaf)),
        right_child: Some(Box::new(leaf)),
    };
    lemma_degenerate_tree_full(b);
    assert(seq![stats[0].0, stats[0].0] =~= seq![b, b]);
    assert(tree_of(input) == t);
    lemma_degenerate_tree_stream(b);
    let tree_bits = ser(seq![t]);
    assert(tree_bits.len() == 19);
    let tree_bytes = pack_bits(tree_bits);
    assert(tree_bytes.len() == 3);
    lemma_uniform_body_bits(b, n, n);
    let body = body_bits(input, input);
    assert(body == Seq::new(n, |i: int| false));
    assert(body.len() == n);
    let body_bytes = pack_bits(body);
    let blen = body_bytes.len() as int;
    assert(blen == (n + 7) / 8);
    assert(1 <= blen);
    let red = 8 * blen - n;
    assert(0 <= red < 8);
    // the encoded image, field by field
    let enc = spec_encode(input);
    let header = seq![
        (tree_bytes.len() / 256) as u8,
        (tree_bytes.len() % 256) as u8,
        (8 * tree_bytes.len() - tree_bits.len()) as u8,
    ];
    assert(enc == header + tree_bytes + seq![(8 * body_bytes.len() - body.len()) as u8]
        + body_bytes);
    assert(enc.len() == 7 + blen);
    assert(enc[0] == 0u8 && enc[1] == 3u8 && enc[2] == 5u8);
    assert(enc[6] as int == red);
    // decoding reads the same fields back
    assert(256 * (enc[0] as int) + (enc[1] as int) == 3);
    assert(enc.subrange(3, 6) =~= tree_bytes);
    let tree_bits2 = Seq::new((8 * 3 - 5) as nat, |i: int| bit_in(enc.subrange(3, 6), i));
    assert(tree_bits2 =~= tree_bits) by {
        assert forall|i: int| 0 <= i < 19 implies bit_in(tree_bytes, i) == tree_bits[i] by {
            lemma_pack_bits_inverse(tree_bits, i);
        }
    }
    assert(spec_tokens(tree_bits2) == Some(seq![None::<u8>, Some(b), Some(b)]));
    let body2 = enc.skip(7);
    assert(body2 =~= body_bytes);
    assert(last_chunk_len(blen) >= 1);
    assert(red <= 8 * last_chunk_len(blen));
    let bits2 = Seq::new((8 * blen - red) as nat, |i: int| bit_in(body2, i));
    assert(bits2.len() == n);
    assert(bits2 =~= Seq::new(n, |i: int| false)) by {
        assert forall|i: int| 0 <= i < n implies bit_in(body_bytes, i) == false by {
            lemma_pack_bits_inverse(body, i);
        }
    }
    assert(tree_of_tokens(seq![None::<u8>, Some(b), Some(b)]) == Some(t));
    lemma_walk_uniform(t, leaf, b, bits2, 0);
    assert(Seq::new((bits2.len() - 0) as nat, |k: int| b) =~= input);
    assert(spec_decode(enc) == Ok::<Seq<u8>, DecodeError>(input));
}

} // verus!