use jobitmap::mmap::SegmentContainer;
use jobitmap::{ByteBufferResource, ByteOperat};

#[test]
fn segment_container_test() {
    let br = ByteBufferResource::new("./test".to_string(), false);
    let mut seg_container = SegmentContainer::new(br, 256 * 64);
    for _ in 1..10 {
        seg_container.allocate();
    }
    let mut snap = seg_container.get_segment();

    let mut s = snap.get_slice(0);
    s[0] = 11;
    s.put_u64(8, 67777);
    assert_eq!(s[0], 11);
    assert_eq!(u64::from_le_bytes(s[8..16].try_into().unwrap()), 67777);
    let mut s = snap.get_slice(5 * 16384);
    s[1] = 100;
    s.put_u64(8, 67777);
    assert_eq!(s[1], 100);
    assert_eq!(u64::from_le_bytes(s[8..16].try_into().unwrap()), 67777);
}

#[test]
fn allocate_returns_consecutive_page_starts() {
    let mut c = SegmentContainer::new(ByteBufferResource::new("unused".to_string(), false), 100);
    assert_eq!(0, c.allocate());
    assert_eq!(100, c.allocate());
    assert_eq!(200, c.allocate());
    assert_eq!(100, c.page_size_value());
    assert_eq!(300, c.into_buffer().len());
}

#[test]
fn new_pages_are_zero_and_writes_land_in_their_page() {
    let mut c = SegmentContainer::new(ByteBufferResource::new("unused".to_string(), false), 16);
    c.allocate();
    c.allocate();
    {
        let mut snap = c.get_segment();
        let mut p = snap.get_slice(16);
        assert_eq!(16, p.len());
        assert_eq!(0, p.get_u64(0));
        p.put_u64(0, 0x0102_0304_0506_0708);
        assert_eq!(0x0102_0304_0506_0708, p.get_u64(0));
    }
    let bytes = c.into_buffer().into_content_buffer().unwrap().into_content();
    assert_eq!(&bytes[0..16], &[0u8; 16][..]);
    assert_eq!(&bytes[16..24], &[8u8, 7, 6, 5, 4, 3, 2, 1][..]);
}

#[test]
fn slice_bytes_read_and_written_one_at_a_time() {
    let mut c = SegmentContainer::new(ByteBufferResource::new("unused".to_string(), false), 8);
    c.allocate();
    let mut snap = c.get_segment();
    let mut p = snap.get_slice(0);
    p.put_byte(3, 9);
    assert_eq!(9, p.get_byte(3));
    assert_eq!(9u64 << 24, p.get_u64(0));
}
