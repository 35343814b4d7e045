use surf::bitmap::{Bitmap, BitmapError};
use surf::dense::{max_key_length, Builder};
use surf::key::Key;

const MEM_LIMIT: usize = 80_000_000;

#[test]
fn test_build_one_level() {
    let mut b = Builder::new(MEM_LIMIT);
    let keys: Vec<Key> = vec![
        vec![0x00], // 0
        vec![0x17], // 1
        vec![0x42], // 2
        vec![0x60], // 3
        vec![0xF9], // 4
    ];
    let mut e_labels = Bitmap::new(256, 256);
    let e_has_child = Bitmap::new(256, 256);
    let e_is_prefix_key = Bitmap::new(1, 256);

    for k in &keys {
        e_labels.set(k[0] as usize).unwrap();
    }

    b.build(&keys).unwrap();

    assert_eq!(e_labels.data, b.labels.data);
    assert_eq!(e_has_child.data, b.has_child.data);
    assert_eq!(e_is_prefix_key.data, b.is_prefix_key.data);
}

#[test]
fn test_build_two_levels() {
    let mut builder = Builder::new(MEM_LIMIT);
    let keys: Vec<Key> = vec![
        b"ai".to_vec(),
        b"ao".to_vec(),
        b"f".to_vec(),
        b"fa".to_vec(),
        b"fe".to_vec(),
    ];

    let mut expected_labels = Bitmap::new(768, 768);
    let mut expected_has_child = Bitmap::new(768, 768);
    let mut expected_is_prefix_key = Bitmap::new(3, 256);

    let labels: Vec<usize> = vec![
        // First node: Edges a, f
        0 * 256 + (b'a' as usize),
        0 * 256 + (b'f' as usize),
        // Second node: Edges i, o
        1 * 256 + (b'i' as usize),
        1 * 256 + (b'o' as usize),
        // Third node: Edges a, e
        2 * 256 + (b'a' as usize),
        2 * 256 + (b'e' as usize),
    ];
    for bit in labels {
        expected_labels.set(bit).unwrap();
    }

    let children: Vec<usize> = vec![
        // First node: a, f have sub-tree
        0 * 256 + (b'a' as usize),
        0 * 256 + (b'f' as usize),
    ];

    for bit in children {
        expected_has_child.set(bit as usize).unwrap();
    }

    let prefix_keys = vec![
        // Third node (-> 'f'): Is prefix key
        2,
    ];
    for bit in prefix_keys {
        expected_is_prefix_key.set(bit).unwrap();
    }

    // Let's test it :)
    builder.build(&keys).unwrap();

    assert_eq!(
        expected_labels.data, builder.labels.data,
        "Expected Labels:\n{:?}\nGot:\n{:?}",
        expected_labels, builder.labels
    );
    assert_eq!(
        expected_has_child.data, builder.has_child.data,
        "Expected HasChild:\n{:?}\nGot:\n{:?}",
        expected_has_child, builder.has_child
    );
    assert_eq!(
        expected_is_prefix_key.data, builder.is_prefix_key.data,
        "Expected IsPrefixKey:\n{:?}\nGot:\n{:?}",
        expected_is_prefix_key, builder.is_prefix_key
    );
}

fn sample_keys() -> Vec<Key> {
    vec![
        b"f".to_vec(),
        b"far".to_vec(),
        b"fas".to_vec(),
        b"fast".to_vec(),
        b"fat".to_vec(),
        b"s".to_vec(),
        b"top".to_vec(),
        b"toy".to_vec(),
        b"trie".to_vec(),
        b"trip".to_vec(),
        b"try".to_vec(),
    ]
}

#[test]
fn one_level_bits_are_exactly_the_edges() {
    let mut b = Builder::new(MEM_LIMIT);
    let keys: Vec<Key> = vec![vec![0x00], vec![0x17], vec![0x42], vec![0x60], vec![0xF9]];
    b.build(&keys).unwrap();
    for bit in 0..256usize {
        let expected = [0usize, 23, 66, 96, 249].contains(&bit);
        assert_eq!(b.labels.peek(bit) == 1, expected, "label bit {}", bit);
        assert_eq!(b.has_child.peek(bit), 0);
    }
    assert_eq!(b.is_prefix_key.peek(0), 0);
    assert_eq!(b.current_node_id, 1);
}

#[test]
fn child_id_is_rank_of_has_child_bit() {
    let mut b = Builder::new(MEM_LIMIT);
    let keys = sample_keys();
    b.build(&keys).unwrap();
    // Nodes in level order: root, "f", "t", "fa", "to", "tr", "fas", "tri".
    assert_eq!(b.current_node_id, 8);
    let f = b'f' as usize;
    let t = b't' as usize;
    assert_eq!(b.has_child.rank(1, f), Ok(1));
    assert_eq!(b.has_child.rank(1, t), Ok(2));
    assert_eq!(b.has_child.peek(b's' as usize), 0);
    assert_eq!(b.labels.peek(b's' as usize), 1);
    assert_eq!(b.has_child.rank(1, 256 + b'a' as usize), Ok(3));
    assert_eq!(b.has_child.rank(1, 2 * 256 + b'o' as usize), Ok(4));
    assert_eq!(b.has_child.rank(1, 2 * 256 + b'r' as usize), Ok(5));
    assert_eq!(b.has_child.rank(1, 3 * 256 + b's' as usize), Ok(6));
    assert_eq!(b.has_child.rank(1, 5 * 256 + b'i' as usize), Ok(7));
    // Keys end at the nodes "f" and "fas".
    for node in 0..8usize {
        assert_eq!(b.is_prefix_key.peek(node) == 1, node == 1 || node == 6, "node {}", node);
    }
    // The edges of "tri" are e and p, both without a node behind them.
    assert_eq!(b.labels.peek(7 * 256 + b'e' as usize), 1);
    assert_eq!(b.labels.peek(7 * 256 + b'p' as usize), 1);
    assert_eq!(b.has_child.peek(7 * 256 + b'e' as usize), 0);
    assert_eq!(b.labels.length, 8 * 256);
    assert_eq!(b.has_child.length, 8 * 256);
    assert_eq!(b.is_prefix_key.length, 64);
}

#[test]
fn empty_key_list_builds_nothing() {
    let mut b = Builder::new(MEM_LIMIT);
    let keys: Vec<Key> = Vec::new();
    assert_eq!(b.build(&keys), Ok(()));
    assert_eq!(b.labels.data, vec![0u64; 4]);
    assert_eq!(b.has_child.data, vec![0u64; 4]);
    assert_eq!(b.is_prefix_key.data, vec![0u64; 1]);
    assert_eq!(b.current_node_id, 0);
}

#[test]
fn too_little_memory_is_out_of_bounds() {
    // Room for two nodes, and the keys need three.
    let mut b = Builder::new(2 * 513);
    let keys: Vec<Key> = vec![b"ai".to_vec(), b"ao".to_vec(), b"f".to_vec(), b"fa".to_vec()];
    assert_eq!(b.build(&keys), Err(BitmapError::OutOfBounds));
    let mut b = Builder::new(3 * 513);
    assert_eq!(b.build(&keys), Ok(()));
    let mut b = Builder::new(512);
    assert_eq!(b.build(&keys), Err(BitmapError::OutOfBounds));
}

#[test]
fn memory_unit_is_limit_over_513() {
    let b = Builder::new(513 * 7 + 512);
    assert_eq!(b.labels.capacity, 256 * 7);
    assert_eq!(b.has_child.capacity, 256 * 7);
    assert_eq!(b.is_prefix_key.capacity, 7);
    assert_eq!(b.label_offset(), 0);
    assert_eq!(b.has_child_offset(), 0);
    assert_eq!(b.is_prefix_key_offset(), 0);
}

#[test]
fn longest_key_length() {
    assert_eq!(max_key_length(&sample_keys()), 4);
    let none: Vec<Key> = Vec::new();
    assert_eq!(max_key_length(&none), 0);
}

#[test]
fn duplicate_keys_build_as_one() {
    let mut once = Builder::new(MEM_LIMIT);
    let mut twice = Builder::new(MEM_LIMIT);
    once.build(&vec![b"ab".to_vec(), b"b".to_vec()]).unwrap();
    twice
        .build(&vec![b"ab".to_vec(), b"ab".to_vec(), b"b".to_vec(), b"b".to_vec()])
        .unwrap();
    assert_eq!(once.labels.data, twice.labels.data);
    assert_eq!(once.has_child.data, twice.has_child.data);
    assert_eq!(once.is_prefix_key.data, twice.is_prefix_key.data);
}
