use jobitmap::mmap::segment_array::get_next_capacity;
use jobitmap::mmap::{SegmentArray, SegmentEntry};
use jobitmap::ByteBufferResource;

#[test]
fn segment_array_test() {
    let br = ByteBufferResource::new("/tmp/test".to_string(), false);
    let mut segment_entry_array = SegmentArray::new(br);
    segment_entry_array.set(100, SegmentEntry { offset: 12, default_value_count: 12 });

    assert_eq!(12, segment_entry_array.get(100).offset);
    assert_eq!(12, segment_entry_array.get(100).default_value_count);

    assert_eq!(0xFFFF_FFFF_FFFF, segment_entry_array.get(10).offset);
    assert_eq!(0xFFFF_FFFF_FFFF, segment_entry_array.get(101).offset);
}

#[test]
fn test1() {
    let br = ByteBufferResource::new("/tmp/test".to_string(), false);
    let mut segment_entry_array = SegmentArray::new(br);

    for i in 0..=100 {
        segment_entry_array.set(i, SegmentEntry { offset: 12, default_value_count: 12 });
    }

    for i in 0..=100 {
        assert_eq!(12, segment_entry_array.get(i).offset);
        assert_eq!(12, segment_entry_array.get(i).default_value_count);
    }
}

#[test]
fn next_capacity_is_exact_below_the_step_and_padded_from_it() {
    assert_eq!(0, get_next_capacity(0));
    assert_eq!(808, get_next_capacity(808));
    assert_eq!(16383, get_next_capacity(16383));
    assert_eq!(32768, get_next_capacity(16384));
    assert_eq!(16384 + 40000, get_next_capacity(40000));
}

#[test]
fn missing_entries_are_default() {
    let mut a = SegmentArray::new(ByteBufferResource::new("unused".to_string(), false));
    let e = a.get(0);
    assert_eq!(0xFFFF_FFFF_FFFF, e.offset);
    assert_eq!(0x100, e.default_value_count);
    let d = SegmentEntry::default();
    assert_eq!(0xFFFF_FFFF_FFFF, d.offset);
    assert_eq!(0x100, d.default_value_count);
}

#[test]
fn entries_between_the_old_end_and_a_new_one_are_absent() {
    let mut a = SegmentArray::new(ByteBufferResource::new("unused".to_string(), false));
    a.set(3, SegmentEntry { offset: 7, default_value_count: 1 });
    let e = a.get(1);
    assert_eq!(0xFFFF_FFFF_FFFF, e.offset);
    assert_eq!(255, e.default_value_count);
    let b = a.into_buffer();
    assert_eq!(32, b.len());
}

#[test]
fn largest_storable_entry_reads_back() {
    let mut a = SegmentArray::new(ByteBufferResource::new("unused".to_string(), false));
    a.set(0, SegmentEntry { offset: 0xFFFF_FFFF_FFFE, default_value_count: 255 });
    let e = a.get(0);
    assert_eq!(0xFFFF_FFFF_FFFE, e.offset);
    assert_eq!(255, e.default_value_count);
}

#[test]
fn entry_word_is_offset_with_count_above_bit_48() {
    let mut a = SegmentArray::new(ByteBufferResource::new("unused".to_string(), false));
    a.set(0, SegmentEntry { offset: 0x1234, default_value_count: 0xAB });
    let bytes = a.into_buffer().into_content_buffer().unwrap().into_content();
    let word = u64::from_le_bytes(bytes[0..8].try_into().unwrap());
    assert_eq!(0x00AB_0000_0000_1234, word);
}

#[test]
fn growth_from_the_step_on_leaves_zero_entries_past_the_needed_one() {
    let mut a = SegmentArray::new(ByteBufferResource::new("unused".to_string(), false));
    a.set(2047, SegmentEntry { offset: 5, default_value_count: 3 });
    let e = a.get(2048);
    assert_eq!(0, e.offset);
    assert_eq!(0, e.default_value_count);
    assert_eq!(0xFFFF_FFFF_FFFF, a.get(2046).offset);
    let b = a.into_buffer();
    assert_eq!(16384 + 16384, b.len());
}

#[test]
fn a_grown_index_shows_the_entries_its_file_holds_past_the_needed_bytes() {
    let mut file = vec![0u8; 16384 + 16];
    let word: u64 = 7 | (9u64 << 48);
    file[16384..16392].copy_from_slice(&word.to_le_bytes());
    let br = ByteBufferResource::with_file_bytes("idx".to_string(), false, file);
    let mut index = SegmentArray::new(br);
    index.set(2047, SegmentEntry { offset: 3, default_value_count: 4 });
    assert_eq!(3, index.get(2047).offset);
    assert_eq!(4, index.get(2047).default_value_count);
    assert_eq!(0xFFFF_FFFF_FFFF, index.get(2046).offset);
    assert_eq!(255, index.get(2046).default_value_count);
    assert_eq!(7, index.get(2048).offset);
    assert_eq!(9, index.get(2048).default_value_count);
    assert_eq!(0, index.get(2049).offset);
    assert_eq!(0, index.get(2049).default_value_count);
}

#[test]
fn a_small_growth_of_a_writable_index_cuts_its_file() {
    let file = vec![0x11u8; 64];
    let br = ByteBufferResource::with_file_bytes("idx".to_string(), false, file);
    let mut index = SegmentArray::new(br);
    index.set(0, SegmentEntry { offset: 1, default_value_count: 2 });
    index.set(3, SegmentEntry { offset: 5, default_value_count: 6 });
    assert_eq!(0xFFFF_FFFF_FFFF, index.get(1).offset);
    assert_eq!(0xFFFF_FFFF_FFFF, index.get(2).offset);
    assert_eq!(5, index.get(3).offset);
    assert_eq!(1, index.get(0).offset);
}
