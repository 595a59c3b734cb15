use ascii_filter::{fill_buf, take_from_buffer, ByteReader, FilterWriter, TextSink};

#[test]
fn test_take_from_buffer() {
    let mut w: Vec<u8> = Vec::new();
    assert_eq!(take_from_buffer(b"abcdef", 5, 2, &mut w), 3);
    assert_eq!(w, vec![b'a', b'b', b'c']);
}

#[test]
fn test_fill_buf() {
    let mut buf = vec![0u8; 5];
    let data = vec![b'h', b'e', b'l'];
    let mut r = ByteReader::new(data);
    assert_eq!(fill_buf(&mut buf, &mut r), Err(3));

    let mut buf = vec![0u8; 3];
    let data = vec![b'h', b'e', b'l', b'l'];
    let mut r = ByteReader::new(data);
    assert_eq!(fill_buf(&mut buf, &mut r), Ok(()));
}

#[test]
fn test_filter_writer() {
    let w: Vec<u8> = Vec::new();
    let mut fw = FilterWriter::new(w, true);
    fw.write("abc你好 wor".as_bytes());
    let w = fw.into_inner();
    assert_eq!(w, vec![b'a', b'b', b'c', b' ', b'w', b'o', b'r']);
}
