use jobitmap::mmap::ByteBuffer;
use jobitmap::{BaseResource, ByteBufferResource, ByteOperat};

#[test]
fn test_byte_buffer_resource() {
    let mut br = ByteBufferResource::new("./test".to_string(), false);
    br.resize(72);
    let mut bf = br.into_content_buffer().unwrap();
    bf.put_byte(0, 156);
    bf.put_u64(8, 6888);
    assert_eq!(156, bf.get_byte(0));
    assert_eq!(6888, bf.get_u64(8));
}

#[test]
fn test_readonly_byte_buffer_resource() {
    let mut writer = ByteBufferResource::new("./test".to_string(), false);
    writer.resize(72);
    let mut written = writer.into_content_buffer().unwrap();
    written.put_byte(0, 156);
    written.put_u64(8, 6888);
    let file_bytes = written.into_content();

    let mut br = ByteBufferResource::with_file_bytes("./test".to_string(), true, file_bytes);
    br.resize(7);
    let bf = br.into_content_buffer().unwrap();
    assert_eq!(156, bf.get_byte(0));
    assert_eq!(6888, bf.get_u64(8));
}

#[test]
fn a_mapping_shows_the_file_bytes() {
    let file_bytes: Vec<u8> = (1u8..=10).collect();
    let mut br = ByteBufferResource::with_file_bytes("f".to_string(), true, file_bytes);
    br.resize(4);
    assert_eq!(4, br.len());
    br.resize(12);
    let bytes = br.into_content_buffer().unwrap().into_content();
    assert_eq!(vec![1u8, 2, 3, 4, 5, 6, 7, 8, 9, 10, 0, 0], bytes);
}

#[test]
fn mapped_bytes_keep_what_was_written() {
    let mut br = ByteBufferResource::with_file_bytes("f".to_string(), true, vec![9u8; 8]);
    br.resize(2);
    let mut rw = ByteBufferResource::with_file_bytes("f".to_string(), false, vec![9u8; 8]);
    rw.resize(2);
    rw.fill(0, 2, 1);
    rw.resize(4);
    assert_eq!(vec![1u8, 1, 0, 0], rw.into_content_buffer().unwrap().into_content());
    assert_eq!(vec![9u8, 9], br.into_content_buffer().unwrap().into_content());
}

#[test]
fn a_writable_mapping_cuts_the_file() {
    let mut rw = ByteBufferResource::with_file_bytes("f".to_string(), false, vec![5u8; 8]);
    rw.resize(3);
    rw.resize(6);
    assert_eq!(vec![5u8, 5, 5, 0, 0, 0], rw.into_content_buffer().unwrap().into_content());

    let mut ro = ByteBufferResource::with_file_bytes("f".to_string(), true, vec![5u8; 8]);
    ro.resize(3);
    ro.resize(6);
    assert_eq!(vec![5u8; 6], ro.into_content_buffer().unwrap().into_content());
}

#[test]
fn a_word_read_reaches_the_rest_of_the_page() {
    let mut br = ByteBufferResource::with_file_bytes("f".to_string(), true, vec![0u8, 0, 0, 0, 2, 0, 0, 0, 0, 0, 0, 0]);
    br.resize(2);
    let bf = br.into_content_buffer().unwrap();
    assert_eq!(2, bf.len());
    assert_eq!(0x2_0000_0000, bf.get_u64(0));
    assert_eq!(2, bf.get_u64(4));
    assert_eq!(0, bf.get_u64(4088));
}

#[test]
fn resize_grows_with_zeros_and_keeps_content() {
    let mut br = ByteBufferResource::new("unused".to_string(), false);
    assert_eq!(0, br.len());
    br.resize(4);
    br.fill(1, 2, 7);
    br.resize(6);
    assert_eq!(6, br.len());
    br.resize(3);
    assert_eq!(6, br.len());
    br.map_content();
    br.force();
    let bytes = br.into_content_buffer().unwrap().into_content();
    assert_eq!(vec![0u8, 7, 7, 0, 0, 0], bytes);
}

#[test]
fn an_unmapped_resource_has_no_buffer() {
    let br = ByteBufferResource::new("unused".to_string(), true);
    assert!(br.into_content_buffer().is_none());
}

#[test]
fn words_are_little_endian() {
    let mut bf = ByteBuffer::new(vec![0u8; 16], false);
    bf.put_u64(3, 0x1122_3344_5566_7788);
    assert_eq!(0x88, bf.get_byte(3));
    assert_eq!(0x11, bf.get_byte(10));
    assert_eq!(0x1122_3344_5566_7788, bf.get_u64(3));
    assert_eq!(16, bf.len());
}

#[test]
fn buffer_fill_sets_only_its_range() {
    let mut bf = ByteBuffer::new(vec![1u8; 5], false);
    bf.fill(1, 3, 0xFF);
    assert_eq!(&[1u8, 0xFF, 0xFF, 0xFF, 1][..], bf.as_slice());
}

#[test]
fn the_resource_keeps_its_path() {
    let br = ByteBufferResource::new("./index".to_string(), false);
    assert_eq!("./index", br.filepath());
}
