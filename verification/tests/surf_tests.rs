use surf::bitmap::{Bitmap, BitmapError};
use surf::iterator::SurfError;
use surf::options::Options;
use surf::surf::Surf;

#[test]
fn test_lookup() {
    let keys: Vec<Vec<u8>> = vec![
        vec![0x00, 0x01],       // Key in intermediary node
        vec![0x00, 0x01, 0x02], // Key in leaf node
        vec![0x42],
        vec![0xFF, 0x42, 0x70, 0x71],
    ];

    let mut surf = match Surf::new(keys.clone(), Options::new()) {
        Ok(surf) => surf,
        Err(e) => panic!("Error creating SuRF store: {:?}", e),
    };

    for k in &keys {
        match surf.lookup(k.clone()) {
            Ok(exists) => {
                assert_eq!(exists.0, true);
            }
            Err(e) => panic!("Error looking up key: {:?}", e),
        }
    }

    let non_existent_keys: Vec<Vec<u8>> = vec![vec![0x00, 0x02], vec![0x43]];

    for k in non_existent_keys {
        match surf.lookup(k) {
            Ok(exists) => {
                assert_eq!(exists.0, false);
            }
            Err(e) => panic!("Error looking up key: {:?}", e),
        }
    }
}

fn two_levels() -> Surf {
    let keys: Vec<Vec<u8>> = vec![
        b"fe".to_vec(),
        b"ai".to_vec(),
        b"f".to_vec(),
        b"ao".to_vec(),
        b"fa".to_vec(),
        b"ai".to_vec(),
    ];
    Surf::new(keys, Options::new()).unwrap()
}

#[test]
fn range_count_two_levels() {
    let mut surf = two_levels();
    assert_eq!(surf.count(b"a".to_vec(), b"fb".to_vec()), Ok(4));
    assert_eq!(surf.count(b"a".to_vec(), b"zz".to_vec()), Ok(5));
    assert_eq!(surf.count(b"b".to_vec(), b"e".to_vec()), Ok(0));
    assert_eq!(surf.count(b"g".to_vec(), b"zz".to_vec()), Ok(0));
    assert_eq!(surf.count(b"ai".to_vec(), b"ai".to_vec()), Ok(1));
    assert_eq!(surf.count(b"fe".to_vec(), b"a".to_vec()), Ok(0));
}

#[test]
fn successor_two_levels() {
    let mut surf = two_levels();
    let (key, _, err) = surf.lookup_or_greater(b"b".to_vec()).unwrap();
    assert_eq!(key, b"f".to_vec());
    assert_eq!(err, None);
    let (key, _, err) = surf.lookup_or_greater(b"ak".to_vec()).unwrap();
    assert_eq!(key, b"ao".to_vec());
    assert_eq!(err, None);
    let (key, _, err) = surf.lookup_or_greater(b"ao".to_vec()).unwrap();
    assert_eq!(key, b"ao".to_vec());
    assert_eq!(err, None);
    let (key, _, err) = surf.lookup_or_greater(b"g".to_vec()).unwrap();
    assert_eq!(key, Vec::<u8>::new());
    assert_eq!(err, Some(SurfError::EndOfTrie));
}

#[test]
fn range_lookup_two_levels() {
    let mut surf = two_levels();
    assert_eq!(surf.range_lookup(b"a".to_vec(), b"fb".to_vec()), Ok(true));
    assert_eq!(surf.range_lookup(b"b".to_vec(), b"e".to_vec()), Ok(false));
    assert_eq!(surf.range_lookup(b"b".to_vec(), b"f".to_vec()), Ok(true));
    assert_eq!(surf.range_lookup(b"g".to_vec(), b"zz".to_vec()), Ok(false));
    assert_eq!(surf.range_lookup(b"fb".to_vec(), b"fd".to_vec()), Ok(false));
    assert_eq!(surf.range_lookup(b"fb".to_vec(), b"fe".to_vec()), Ok(true));
}

#[test]
fn lookup_hands_back_the_matched_prefix() {
    let mut surf = Surf::new(
        vec![b"far".to_vec(), b"fast".to_vec(), b"john".to_vec()],
        Options::new(),
    )
    .unwrap();
    // The keys are held as "far", "fas" and "j".
    let (exists, matched, it, err) = surf.lookup(b"fast".to_vec()).unwrap();
    assert!(exists);
    assert_eq!(matched, b"fas".to_vec());
    assert_eq!(err, None);
    assert_eq!(it.next_edge, b's' as usize);
    let (exists, matched, _, _) = surf.lookup(b"johnny".to_vec()).unwrap();
    assert!(exists);
    assert_eq!(matched, b"j".to_vec());
    let (exists, matched, it, err) = surf.lookup(b"fa".to_vec()).unwrap();
    assert!(!exists);
    assert_eq!(matched, Vec::<u8>::new());
    assert_eq!(err, None);
    assert_eq!(it.node_index, 2);
    assert_eq!(it.next_edge, 0);
    let (exists, _, it, _) = surf.lookup(b"fb".to_vec()).unwrap();
    assert!(!exists);
    assert_eq!(it.node_index, 1);
    assert_eq!(it.next_edge, b'b' as usize);
}

#[test]
fn round_trip_finds_every_key() {
    let keys: Vec<Vec<u8>> = vec![
        b"trie".to_vec(),
        b"f".to_vec(),
        b"s".to_vec(),
        b"top".to_vec(),
        b"far".to_vec(),
        b"toy".to_vec(),
        b"fas".to_vec(),
        b"trip".to_vec(),
        b"fast".to_vec(),
        b"try".to_vec(),
        b"fat".to_vec(),
        b"f".to_vec(),
    ];
    let mut surf = Surf::new(keys.clone(), Options::new()).unwrap();
    for k in &keys {
        let (exists, matched, _, err) = surf.lookup(k.clone()).unwrap();
        assert!(exists, "{:?}", k);
        assert!(k.starts_with(&matched));
        assert_eq!(err, None);
    }
    assert_eq!(surf.count(vec![0x00], vec![0xFF]), Ok(11));
}

#[test]
fn build_fails_without_memory() {
    let mut options = Options::new();
    options.memory_limit = 1000;
    // Held as "ab" and "ac": the root and the node behind its edge a.
    let keys: Vec<Vec<u8>> = vec![b"abc".to_vec(), b"acd".to_vec()];
    assert!(matches!(
        Surf::new(keys.clone(), options),
        Err(SurfError::Bitmap(BitmapError::OutOfBounds))
    ));
    let mut options = Options::new();
    options.memory_limit = 2 * 513;
    assert!(Surf::new(keys, options).is_ok());
    // Held as "a" and "c": the root alone.
    let mut options = Options::new();
    options.memory_limit = 513;
    assert!(Surf::new(vec![b"ab".to_vec(), b"cd".to_vec()], options).is_ok());
}

#[test]
fn no_keys_no_matches() {
    let mut surf = Surf::new(Vec::new(), Options::new()).unwrap();
    let (exists, _, _, err) = surf.lookup(b"a".to_vec()).unwrap();
    assert!(!exists);
    assert_eq!(err, None);
    assert_eq!(surf.count(vec![0x00], vec![0xFF]), Ok(0));
    assert_eq!(surf.range_lookup(vec![0x00], vec![0xFF]), Ok(false));
}

#[test]
fn default_options() {
    let o = Options::new();
    assert_eq!(o.r, 64);
    assert_eq!(o.hash_bits, 4);
    assert_eq!(o.real_bits, 4);
    assert_eq!(o.memory_limit, 256_000_000);
    let d = Options::default();
    assert_eq!(d.memory_limit, 256_000_000);
    assert_eq!(d.r, 64);
}

// A filter whose root has a key by the edge 3 and, by the edge 7, a node
// whose edges lie past the capacities of the bitmaps.
fn unfit() -> Surf {
    let mut labels = Bitmap::new(256, 256);
    let mut has_child = Bitmap::new(256, 256);
    labels.set(3).unwrap();
    labels.set(7).unwrap();
    has_child.set(7).unwrap();
    Surf {
        dense_labels: labels,
        dense_has_child: has_child,
        dense_is_prefix_key: Bitmap::new(64, 64),
    }
}

#[test]
fn fault_after_a_key_is_met_only_when_reached() {
    let mut surf = unfit();
    let fault = SurfError::Bitmap(BitmapError::OutOfBounds);
    // The key comes first.
    assert_eq!(surf.range_lookup(vec![0], vec![5]), Ok(true));
    assert_eq!(surf.range_lookup(vec![0], vec![2]), Ok(false));
    assert_eq!(surf.count(vec![0], vec![2]), Ok(0));
    let (key, _, err) = surf.lookup_or_greater(vec![0]).unwrap();
    assert_eq!(key, vec![3]);
    assert_eq!(err, None);
    // A count goes on to the fault.
    assert_eq!(surf.count(vec![0], vec![5]), Err(fault));
    assert_eq!(surf.count(vec![3], vec![9]), Err(fault));
    // From after the key the fault comes first.
    assert_eq!(surf.range_lookup(vec![4], vec![9]), Err(fault));
    assert_eq!(surf.count(vec![4], vec![9]), Err(fault));
    let (key, it, err) = surf.lookup_or_greater(vec![4]).unwrap();
    assert_eq!(key, Vec::<u8>::new());
    assert_eq!(err, Some(fault));
    assert_eq!(it.node_index, 1);
    assert_eq!(it.next_edge, 0);
    // Past the fault nothing is left.
    assert_eq!(surf.range_lookup(vec![8], vec![9]), Ok(false));
    assert_eq!(surf.count(vec![8], vec![9]), Ok(0));
}

#[test]
fn fault_of_the_point_query_is_handed_on() {
    let mut surf = unfit();
    let fault = SurfError::Bitmap(BitmapError::OutOfBounds);
    let (exists, matched, it, err) = surf.lookup(vec![7, 1]).unwrap();
    assert!(!exists);
    assert_eq!(matched, Vec::<u8>::new());
    assert_eq!(err, Some(fault));
    assert_eq!(it.node_index, 1);
    assert_eq!(it.next_edge, 1);
    let (key, _, err) = surf.lookup_or_greater(vec![7, 1]).unwrap();
    assert_eq!(key, Vec::<u8>::new());
    assert_eq!(err, Some(fault));
    assert_eq!(surf.range_lookup(vec![7, 1], vec![9]), Err(fault));
    assert_eq!(surf.count(vec![7, 1], vec![9]), Err(fault));
    // The node behind the edge is not marked as the end of a key.
    let (exists, _, _, err) = surf.lookup(vec![7]).unwrap();
    assert!(!exists);
    assert_eq!(err, None);
}
