use surf::bitmap::{Bitmap, BitmapError};

#[test]
fn test_bitmap_set() {
    let mut bitmap = Bitmap::new(64, 64);

    let keys = [0, 7, 16, 63];
    for key in keys {
        bitmap.set(key).unwrap();
    }

    assert_eq!(
        bitmap.data[0], 0x8100800000000001,
        "bitmap.data[0] == 0x8100800000000001"
    );
}

#[test]
fn test_set_get_and_unset() {
    let mut bitmap = Bitmap::new(256, 256);

    for key in 0..256 {
        let val = bitmap.get(key).unwrap();
        assert_eq!(val, 0, "bitmap.get({}) == 0", key);
        bitmap.set(key).unwrap();
        assert_eq!(bitmap.get(key).unwrap(), 1, "bitmap.get({}) == 1", key);
    }

    for key in 0..256 {
        bitmap.unset(key).unwrap();
        assert_eq!(bitmap.get(key).unwrap(), 0, "bitmap.get({}) == 0", key);
    }
}

#[test]
fn test_out_of_bounds() {
    let mut bitmap = Bitmap::new(64, 100);
    assert_eq!(bitmap.set(100), Err(BitmapError::OutOfBounds));
    assert_eq!(bitmap.get(100), Err(BitmapError::OutOfBounds));
    assert_eq!(bitmap.unset(100), Err(BitmapError::OutOfBounds));
    assert_eq!(bitmap.set(99), Ok(()));
    assert_eq!(bitmap.length, 128);
}

fn sample() -> Bitmap {
    let mut bitmap = Bitmap::new(130, 1000);
    for bit in [0usize, 3, 63, 64, 100, 127, 190] {
        bitmap.set(bit).unwrap();
    }
    bitmap
}

#[test]
fn new_rounds_up_to_words() {
    let bitmap = Bitmap::new(130, 1000);
    assert_eq!(bitmap.length, 192);
    assert_eq!(bitmap.capacity, 1000);
    assert_eq!(bitmap.data, vec![0u64; 3]);
    let empty = Bitmap::new(0, 0);
    assert_eq!(empty.length, 0);
    assert_eq!(empty.data, Vec::<u64>::new());
}

#[test]
fn rank_counts_up_to_and_with_the_index() {
    let mut bitmap = sample();
    assert_eq!(bitmap.rank(1, 0), Ok(1));
    assert_eq!(bitmap.rank(1, 2), Ok(1));
    assert_eq!(bitmap.rank(1, 3), Ok(2));
    assert_eq!(bitmap.rank(1, 62), Ok(2));
    assert_eq!(bitmap.rank(1, 63), Ok(3));
    assert_eq!(bitmap.rank(1, 64), Ok(4));
    assert_eq!(bitmap.rank(1, 127), Ok(6));
    assert_eq!(bitmap.rank(1, 128), Ok(6));
    assert_eq!(bitmap.rank(1, 191), Ok(7));
    assert_eq!(bitmap.rank(0, 0), Ok(0));
    assert_eq!(bitmap.rank(0, 3), Ok(2));
    assert_eq!(bitmap.rank(0, 191), Ok(185));
}

#[test]
fn rank_of_ones_and_zeros_add_up() {
    let mut bitmap = sample();
    for i in 0..192usize {
        let ones = bitmap.rank(1, i).unwrap();
        let zeros = bitmap.rank(0, i).unwrap();
        assert_eq!(ones + zeros, i + 1);
    }
}

#[test]
fn select_finds_the_nth_bit() {
    let mut bitmap = sample();
    assert_eq!(bitmap.select(1, 1), Ok(0));
    assert_eq!(bitmap.select(1, 2), Ok(3));
    assert_eq!(bitmap.select(1, 3), Ok(63));
    assert_eq!(bitmap.select(1, 4), Ok(64));
    assert_eq!(bitmap.select(1, 5), Ok(100));
    assert_eq!(bitmap.select(1, 6), Ok(127));
    assert_eq!(bitmap.select(1, 7), Ok(190));
    assert_eq!(bitmap.select(0, 1), Ok(1));
    assert_eq!(bitmap.select(0, 2), Ok(2));
    assert_eq!(bitmap.select(0, 3), Ok(4));
    assert_eq!(bitmap.select(0, 185), Ok(191));
}

#[test]
fn select_inverts_rank() {
    let mut bitmap = sample();
    for i in 0..192usize {
        let v = bitmap.get(i).unwrap();
        let r = bitmap.rank(v, i).unwrap();
        assert_eq!(bitmap.select(v, r), Ok(i));
    }
}

#[test]
fn rank_and_select_errors() {
    let mut bitmap = sample();
    assert_eq!(bitmap.rank(1, 192), Err(BitmapError::OutOfBounds));
    assert_eq!(bitmap.rank(2, 0), Err(BitmapError::InvalidValue));
    assert_eq!(bitmap.rank(2, 192), Err(BitmapError::OutOfBounds));
    assert_eq!(bitmap.select(2, 1), Err(BitmapError::InvalidValue));
    assert_eq!(bitmap.select(2, 0), Err(BitmapError::InvalidValue));
    assert_eq!(bitmap.select(1, 0), Err(BitmapError::InvalidCount));
    assert_eq!(bitmap.select(1, 193), Err(BitmapError::InvalidCount));
    assert_eq!(bitmap.select(1, 8), Err(BitmapError::NotFound));
    assert_eq!(bitmap.select(0, 186), Err(BitmapError::NotFound));
}

#[test]
fn get_past_the_end_grows_and_reads_zero() {
    let mut bitmap = Bitmap::new(64, 1000);
    assert_eq!(bitmap.length, 64);
    assert_eq!(bitmap.get(200), Ok(0));
    assert_eq!(bitmap.length, 256);
    assert_eq!(bitmap.data, vec![0u64; 4]);
    assert_eq!(bitmap.get(200), Ok(0));
    assert_eq!(bitmap.length, 256);
    assert_eq!(bitmap.unset(300), Ok(()));
    assert_eq!(bitmap.length, 320);
    assert_eq!(bitmap.get(300), Ok(0));
    assert_eq!(bitmap.peek(999_999), 0);
    assert_eq!(bitmap.length, 320);
}

#[test]
fn set_bits_read_as_one_whatever_the_order() {
    let mut bitmap = Bitmap::new(0, 4096);
    let bits = [4000usize, 1, 64, 63, 1, 2049, 0];
    for bit in bits {
        bitmap.set(bit).unwrap();
    }
    for bit in bits {
        assert_eq!(bitmap.get(bit), Ok(1));
    }
    assert_eq!(bitmap.get(2), Ok(0));
    assert_eq!(bitmap.rank(1, 4031), Ok(6));
}

#[test]
fn unset_clears_one_bit_only() {
    let mut bitmap = Bitmap::new(64, 64);
    for bit in 0..64usize {
        bitmap.set(bit).unwrap();
    }
    bitmap.unset(0).unwrap();
    bitmap.unset(17).unwrap();
    bitmap.unset(63).unwrap();
    assert_eq!(bitmap.data[0], 0x7FFFBFFFFFFFFFFE);
}

#[test]
fn resize_never_shrinks_and_stops_at_capacity() {
    let mut bitmap = Bitmap::new(128, 200);
    bitmap.resize(10);
    assert_eq!(bitmap.length, 128);
    bitmap.resize(129);
    assert_eq!(bitmap.length, 192);
    bitmap.resize(5000);
    assert_eq!(bitmap.length, 256);
    let mut small = Bitmap::new(256, 0);
    small.resize(300);
    assert_eq!(small.length, 256);
}

#[test]
fn clone_is_equal() {
    let bitmap = sample();
    let copy = bitmap.clone();
    assert_eq!(bitmap, copy);
}
