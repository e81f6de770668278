use jobitmap::batchbitmap::BatchBitmap;
use jobitmap::mmap::{SegmentArray, SegmentContainer};
use jobitmap::{BatchBitmapI, Bitmap, BitmapI, ByteBufferResource, Flushable};

fn fresh() -> Bitmap {
    let br = ByteBufferResource::new("./index".to_string(), false);
    let segment_array = SegmentArray::new(br);
    let br = ByteBufferResource::new("./data".to_string(), false);
    let data_container = SegmentContainer::new(br, 256 * 64);
    Bitmap::new(BatchBitmap::new(segment_array, data_container))
}

#[test]
fn bitmap_test() {
    let br = ByteBufferResource::new("./index".to_string(), false);
    let segment_array = SegmentArray::new(br);

    let br = ByteBufferResource::new("./data".to_string(), false);
    let data_container = SegmentContainer::new(br, 256 * 64);

    let batch_bitmap = BatchBitmap::new(segment_array, data_container);

    let mut bimap = Bitmap::new(batch_bitmap);
    for i in 0..1000 {
        bimap.set(i, true);
        assert!(bimap.get(i));
    }
    for i in 0..1000 {
        bimap.set(i, false);
        assert!(!bimap.get(i));
    }
    for i in 0..100 {
        bimap.set(1000 + 16384 * i, true);
        assert!(bimap.get(1000 + 16384 * i));
    }
    for i in 0..100 {
        bimap.set(1000 + 16384 * i, false);
        assert!(!bimap.get(1000 + 16384 * i));
    }
}

#[test]
fn bits_of_one_word_are_independent() {
    let mut b = fresh();
    b.set(64 + 3, true);
    b.set(64 + 5, true);
    assert!(b.get(67));
    assert!(b.get(69));
    assert!(!b.get(68));
    b.set(67, false);
    assert!(!b.get(67));
    assert!(b.get(69));
}

#[test]
fn a_changed_word_reaches_the_word_map_on_flush() {
    let mut b = fresh();
    b.set(130, true);
    assert_eq!(Ok(()), b.flush());
    let mut batch = b.into_batch_bitmap();
    assert_eq!(1u64 << 2, batch.get(2));
}

#[test]
fn a_changed_word_stays_pending_until_another_word_changes() {
    let mut b = fresh();
    b.set(0, true);
    b.set(63, true);
    let mut batch = b.into_batch_bitmap();
    assert_eq!(0, batch.get(0));

    let mut b = fresh();
    b.set(0, true);
    b.set(64, true);
    let mut batch = b.into_batch_bitmap();
    assert_eq!(1, batch.get(0));
    assert_eq!(0, batch.get(1));
}

#[test]
fn setting_a_bit_to_its_value_changes_nothing() {
    let mut b = fresh();
    b.set(10, false);
    assert!(!b.get(10));
    assert_eq!(Ok(()), b.flush());
    let batch = b.into_batch_bitmap();
    let (_, data) = batch.into_parts();
    assert_eq!(0, data.into_buffer().len());
}
