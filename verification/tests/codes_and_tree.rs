use shannon_fano::bits::BitVector;
use shannon_fano::codes::{generate_codes, Encoding};
use shannon_fano::encode::build_statistics;
use shannon_fano::tree::{CodeTree, Node};

fn code_bits(e: &Encoding) -> Vec<bool> {
    let code = e.bit_vec.as_ref().expect("assigned code");
    let mut out = Vec::new();
    let mut i = 0;
    while let Some(b) = code.get_bit(i) {
        out.push(b);
        i += 1;
    }
    out
}

fn assign(input: &Vec<u8>) -> Vec<Encoding> {
    let mut stats = build_statistics(input);
    let mut sum: u64 = 0;
    for s in stats.iter() {
        sum += s.count;
    }
    let n = stats.len();
    generate_codes(0, n, &mut stats, BitVector::with_capacity(8), sum);
    stats
}

fn is_prefix(a: &[bool], b: &[bool]) -> bool {
    a.len() <= b.len() && a.iter().zip(b.iter()).all(|(x, y)| x == y)
}

fn count_shape(node: &Node) -> (usize, usize) {
    match (&node.left_child, &node.right_child) {
        (None, None) => {
            assert!(node.byte.is_some(), "a leaf holds a byte");
            (0, 1)
        }
        (Some(l), Some(r)) => {
            assert!(node.byte.is_none(), "an internal node holds no byte");
            let (il, ll) = count_shape(l);
            let (ir, lr) = count_shape(r);
            (1 + il + ir, ll + lr)
        }
        _ => panic!("a node with exactly one child is not a full binary tree"),
    }
}

fn trees_equal(a: &Node, b: &Node) -> bool {
    if a.byte != b.byte {
        return false;
    }
    let children = [
        (&a.left_child, &b.left_child),
        (&a.right_child, &b.right_child),
    ];
    for (ca, cb) in children {
        match (ca, cb) {
            (None, None) => {}
            (Some(x), Some(y)) => {
                if !trees_equal(x, y) {
                    return false;
                }
            }
            _ => return false,
        }
    }
    true
}

#[test]
fn four_distinct_bytes_sort_and_split() {
    // Four bytes each seen once: ties sort by descending byte value, the
    // greedy split balances them, and every code is exactly 2 bits.
    let input = vec![0x00u8, 0x01, 0x02, 0x03];
    let stats = assign(&input);
    let bytes: Vec<u8> = stats.iter().map(|s| s.byte).collect();
    assert_eq!(bytes, vec![3u8, 2, 1, 0]);
    for s in stats.iter() {
        assert_eq!(s.count, 1);
    }
    assert_eq!(code_bits(&stats[0]), vec![false, false]);
    assert_eq!(code_bits(&stats[1]), vec![false, true]);
    assert_eq!(code_bits(&stats[2]), vec![true, false]);
    assert_eq!(code_bits(&stats[3]), vec![true, true]);

    let mut tree = CodeTree::new();
    for s in stats.iter() {
        tree.insert(s.bit_vec.as_ref().unwrap(), s.byte);
    }
    let (internal, leaves) = count_shape(tree.get_root());
    assert_eq!(internal, 3);
    assert_eq!(leaves, 4);

    let encoded = shannon_fano::encode::encode_bytes(&input);
    let decoded = shannon_fano::decode::decode_bytes(&encoded).expect("decode");
    assert_eq!(decoded, input);
}

#[test]
fn assigner_is_deterministic() {
    // The same sorted statistics always produce the same split points and
    // the same codes.
    let input = b"mississippi river".to_vec();
    let first = assign(&input);
    let second = assign(&input);
    assert_eq!(first.len(), second.len());
    for (a, b) in first.iter().zip(second.iter()) {
        assert_eq!(a.byte, b.byte);
        assert_eq!(a.count, b.count);
        assert_eq!(code_bits(a), code_bits(b));
    }
}

#[test]
fn assigned_codes_are_prefix_free() {
    let input = b"abracadabra alakazam".to_vec();
    let stats = assign(&input);
    let codes: Vec<Vec<bool>> = stats.iter().map(code_bits).collect();
    for i in 0..codes.len() {
        for j in 0..codes.len() {
            if i != j {
                assert!(
                    !is_prefix(&codes[i], &codes[j]),
                    "codes must be prefix-free"
                );
            }
        }
    }
}

#[test]
fn encoder_trees_are_full_binary() {
    for input in [
        b"abracadabra".to_vec(),
        vec![1u8, 2, 2, 3, 3, 3, 4, 4, 4, 4],
        b"zz".to_vec(),
    ] {
        let stats = assign(&input);
        let mut tree = CodeTree::new();
        for s in stats.iter() {
            tree.insert(s.bit_vec.as_ref().unwrap(), s.byte);
        }
        count_shape(tree.get_root());
    }
}

#[test]
fn tree_serialization_reconstructs_the_tree() {
    let input = b"some sample text for the tree".to_vec();
    let stats = assign(&input);
    let mut tree = CodeTree::new();
    for s in stats.iter() {
        tree.insert(s.bit_vec.as_ref().unwrap(), s.byte);
    }
    let bits = tree.to_bitvector();
    let rebuilt = CodeTree::from_bit_vector(&bits).expect("well-formed stream");
    assert!(trees_equal(tree.get_root(), rebuilt.get_root()));
}

#[test]
fn push_value_fills_slots_level_order() {
    // Tokens of the serialized tree (internal, leaf 7, leaf 9) rebuild the
    // two-leaf tree in level order.
    let mut tree = CodeTree { root: None };
    tree.push_value(None);
    tree.push_value(Some(7));
    tree.push_value(Some(9));
    let root = tree.get_root();
    assert_eq!(root.byte, None);
    assert_eq!(root.left_child.as_ref().unwrap().byte, Some(7));
    assert_eq!(root.right_child.as_ref().unwrap().byte, Some(9));
}

#[test]
fn node_constructors_and_walk() {
    let mut n = Node::new();
    assert!(!n.has_children());
    n.create_left();
    n.create_right();
    assert!(n.has_children());
    n.insert_byte(5);
    assert_eq!(n.byte, Some(5));
    let left = CodeTree::move_node(&n, false).expect("left child");
    assert_eq!(left.byte, None);
    let leaf = Node::with_value(Some(1));
    assert!(CodeTree::move_node(&leaf, true).is_none());
}
