use std::collections::VecDeque;
use surf::bitmap::{Bitmap, BitmapError};
use surf::dense::Builder;
use surf::iterator::{Iterator, SurfError};
use surf::key::Key;

fn cursor_over(keys: Vec<Key>) -> Iterator {
    let mut b = Builder::new(80_000_000);
    b.build(&keys).unwrap();
    Iterator {
        labels: b.labels,
        has_child: b.has_child,
        is_prefix_key: b.is_prefix_key,
        node_index: 0,
        nodes: VecDeque::new(),
        next_edge: 0,
        edges: VecDeque::new(),
        key_prefix: VecDeque::new(),
    }
}

fn two_levels() -> Vec<Key> {
    vec![
        b"ai".to_vec(),
        b"ao".to_vec(),
        b"f".to_vec(),
        b"fa".to_vec(),
        b"fe".to_vec(),
    ]
}

#[test]
fn next_yields_all_keys_in_order() {
    let keys = two_levels();
    let mut it = cursor_over(keys.clone());
    for k in &keys {
        assert_eq!(it.next(), Ok(k.clone()));
    }
    assert_eq!(it.next(), Err(SurfError::EndOfTrie));
    assert_eq!(it.next(), Err(SurfError::EndOfTrie));
    assert_eq!(it.node_index, 0);
    assert_eq!(it.next_edge, 256);
}

#[test]
fn next_on_deeper_trie() {
    let keys: Vec<Key> = vec![
        b"f".to_vec(),
        b"far".to_vec(),
        b"fas".to_vec(),
        b"fast".to_vec(),
        b"fat".to_vec(),
        b"s".to_vec(),
        b"top".to_vec(),
        b"toy".to_vec(),
        b"trie".to_vec(),
        b"trip".to_vec(),
        b"try".to_vec(),
    ];
    let mut it = cursor_over(keys.clone());
    let mut seen: Vec<Key> = Vec::new();
    loop {
        match it.next() {
            Ok(k) => seen.push(k),
            Err(e) => {
                assert_eq!(e, SurfError::EndOfTrie);
                break;
            }
        }
    }
    assert_eq!(seen, keys);
}

#[test]
fn go_to_child_signals() {
    let mut it = cursor_over(two_levels());
    assert_eq!(it.go_to_child(b'b'), Err(SurfError::NoSuchEdge));
    assert_eq!(it.node_index, 0);
    assert_eq!(it.next_edge, b'b' as usize);
    assert_eq!(it.go_to_child(b'f'), Ok(()));
    assert_eq!(it.node_index, 2);
    assert_eq!(it.next_edge, 0);
    assert_eq!(it.key_prefix, VecDeque::from(vec![b'f']));
    assert_eq!(it.nodes, VecDeque::from(vec![0usize]));
    assert_eq!(it.edges, VecDeque::from(vec![b'f' as usize]));
    assert_eq!(it.go_to_child(b'a'), Err(SurfError::IsLeaf));
    assert_eq!(it.node_index, 2);
    assert_eq!(it.next_edge, b'a' as usize);
    assert_eq!(it.current_key(), b"f".to_vec());
}

#[test]
fn ascend_goes_back_to_the_edge_after() {
    let mut it = cursor_over(two_levels());
    it.go_to_child(b'a').unwrap();
    assert_eq!(it.node_index, 1);
    it.ascend();
    assert_eq!(it.node_index, 0);
    assert_eq!(it.next_edge, b'a' as usize + 1);
    assert!(it.key_prefix.is_empty());
    assert!(it.nodes.is_empty());
    assert!(it.edges.is_empty());
    it.ascend();
    assert_eq!(it.node_index, 0);
    assert_eq!(it.next_edge, 256);
}

#[test]
fn next_from_the_middle() {
    let mut it = cursor_over(two_levels());
    it.next_edge = b'b' as usize;
    assert_eq!(it.next(), Ok(b"f".to_vec()));
    assert_eq!(it.next(), Ok(b"fa".to_vec()));
}

#[test]
fn no_keys_end_at_once() {
    let mut it = cursor_over(Vec::new());
    assert_eq!(it.next(), Err(SurfError::EndOfTrie));
}

#[test]
fn access_past_capacity_is_a_fault() {
    // A has-child bit whose node lies past the capacity of the labels.
    let mut labels = Bitmap::new(256, 256);
    let mut has_child = Bitmap::new(256, 256);
    labels.set(7).unwrap();
    has_child.set(7).unwrap();
    let mut it = Iterator {
        labels,
        has_child,
        is_prefix_key: Bitmap::new(64, 64),
        node_index: 0,
        nodes: VecDeque::new(),
        next_edge: 0,
        edges: VecDeque::new(),
        key_prefix: VecDeque::new(),
    };
    assert_eq!(
        it.next(),
        Err(SurfError::Bitmap(BitmapError::OutOfBounds))
    );
    assert_eq!(it.node_index, 1);
    assert_eq!(
        it.go_to_child(0),
        Err(SurfError::Bitmap(BitmapError::OutOfBounds))
    );
}

#[test]
fn messages() {
    assert_eq!(SurfError::NoSuchEdge.message(), "No such edge");
    assert_eq!(SurfError::IsLeaf.message(), "Is leaf");
    assert_eq!(SurfError::EndOfTrie.message(), "Reached end of trie");
    assert_eq!(
        SurfError::Bitmap(BitmapError::InvalidValue).message(),
        "Val must be one of 0, 1"
    );
    assert_eq!(
        SurfError::from(BitmapError::NotFound),
        SurfError::Bitmap(BitmapError::NotFound)
    );
    assert_eq!(
        BitmapError::OutOfBounds.message(),
        "Invalid index. Must be in range [0, capacity - 1]"
    );
    assert_eq!(BitmapError::InvalidCount.message(), "Nth must be in [1, length]");
}
