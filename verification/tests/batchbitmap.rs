use jobitmap::batchbitmap::BatchBitmap;
use jobitmap::mmap::{SegmentArray, SegmentContainer};
use jobitmap::{BatchBitmapI, ByteBufferResource};

fn fresh() -> BatchBitmap {
    let br = ByteBufferResource::new("./index".to_string(), false);
    let segment_array = SegmentArray::new(br);
    let br = ByteBufferResource::new("./data".to_string(), false);
    let data_container = SegmentContainer::new(br, 256 * 64);
    BatchBitmap::new(segment_array, data_container)
}

#[test]
fn batchbitmap_test() {
    let br = ByteBufferResource::new("./index".to_string(), false);
    let segment_array = SegmentArray::new(br);

    let br = ByteBufferResource::new("./data".to_string(), false);
    let data_container = SegmentContainer::new(br, 256 * 64);

    let mut batch_bitmap = BatchBitmap::new(segment_array, data_container);
    batch_bitmap.set(0, u64::MAX - 1);
    batch_bitmap.set(18, 9007199254740991);
    batch_bitmap.set(19, 900719925474099);

    assert_eq!(u64::MAX - 1, batch_bitmap.get(0));
    assert_eq!(9007199254740991, batch_bitmap.get(18));
    assert_eq!(900719925474099, batch_bitmap.get(19));

    assert_eq!(0, batch_bitmap.get(1));
    assert_eq!(0, batch_bitmap.get(256));
    batch_bitmap.set(256, 18);
    assert_eq!(18, batch_bitmap.get(256));

    let (mut segment_array, _) = batch_bitmap.into_parts();
    assert_eq!(253, segment_array.get(0).default_value_count);
}

#[test]
fn setting_zero_in_an_empty_segment_allocates_nothing() {
    let mut b = fresh();
    b.set(5, 0);
    assert_eq!(0, b.get(5));
    let (_, data) = b.into_parts();
    assert_eq!(0, data.into_buffer().len());
}

#[test]
fn a_segment_whose_words_all_return_to_zero_is_released() {
    let mut b = fresh();
    b.set(3, 1);
    b.set(4, 2);
    b.set(3, 0);
    let (mut index, data) = b.into_parts();
    assert_eq!(255, index.get(0).default_value_count);
    let mut b = BatchBitmap::new(index, data);
    b.set(4, 0);
    assert_eq!(0, b.get(4));
    let (mut index, data) = b.into_parts();
    let e = index.get(0);
    assert_eq!(0xFFFF_FFFF_FFFF, e.offset);
    assert_eq!(255, e.default_value_count);
    assert_eq!(16384, data.into_buffer().len());
}

#[test]
fn overwriting_a_nonzero_word_keeps_the_count() {
    let mut b = fresh();
    b.set(700, 9);
    b.set(700, 10);
    assert_eq!(10, b.get(700));
    let (mut index, _) = b.into_parts();
    let e = index.get(2);
    assert_eq!(0, e.offset);
    assert_eq!(255, e.default_value_count);
}

#[test]
fn segments_get_pages_in_the_order_they_are_first_written() {
    let mut b = fresh();
    b.set(3 * 256, 1);
    b.set(0, 2);
    assert_eq!(1, b.get(3 * 256));
    assert_eq!(2, b.get(0));
    let (mut index, _) = b.into_parts();
    assert_eq!(0, index.get(3).offset);
    assert_eq!(16384, index.get(0).offset);
    assert_eq!(0xFFFF_FFFF_FFFF, index.get(1).offset);
}

#[test]
fn a_count_change_outside_the_remembered_segment_overwrites_the_remembered_entry() {
    let mut b = fresh();
    b.set(1, 5);
    b.set(256, 6);
    b.set(2, 7);
    b.set(257, 8);
    assert_eq!(8, b.get(257));
    assert_eq!(8, b.get(1));
}

#[test]
fn index_growth_from_segment_2047_on_leaves_entries_that_name_the_first_page() {
    let mut b = fresh();
    b.set(2047 * 256, 1);
    assert_eq!(1, b.get(2047 * 256));
    assert_eq!(1, b.get(2048 * 256));
}

#[test]
fn a_bitmap_taken_apart_can_be_rebuilt_from_its_parts() {
    let mut b = fresh();
    b.set(5, 77);
    b.set(300, 1);
    let (segment_array, data_container) = b.into_parts();
    let mut again = BatchBitmap::new(segment_array, data_container);
    assert_eq!(77, again.get(5));
    assert_eq!(1, again.get(300));
    assert_eq!(0, again.get(6));
}

#[test]
fn a_bitmap_over_a_reopened_index_file_reads_its_entries_after_a_large_growth() {
    let mut file = vec![0xFFu8; 2049 * 8 + 8];
    let word: u64 = 0 | (255u64 << 48);
    file[2049 * 8..2049 * 8 + 8].copy_from_slice(&word.to_le_bytes());
    let br = ByteBufferResource::with_file_bytes("./index".to_string(), false, file);
    let segment_array = SegmentArray::new(br);
    let br = ByteBufferResource::new("./data".to_string(), false);
    let data_container = SegmentContainer::new(br, 256 * 64);
    let mut b = BatchBitmap::new(segment_array, data_container);
    b.set(2047 * 256 + 3, 9);
    assert_eq!(9, b.get(2047 * 256 + 3));
    assert_eq!(9, b.get(2049 * 256 + 3));
    assert_eq!(0, b.get(2048 * 256 + 3));
}
