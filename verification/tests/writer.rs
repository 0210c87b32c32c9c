use bf_tools::interpreter::{BytesWriter, DefaultWriter, InterprIOOut};

fn collected(w: DefaultWriter<BytesWriter>) -> Vec<u8> {
    w.into_inner().into_bytes()
}

#[test]
fn ascii_passes_straight_through() {
    let mut w = DefaultWriter::new(BytesWriter::new());
    w.putchar(b'h').unwrap();
    w.putchar(b'i').unwrap();
    assert_eq!(collected(w), b"hi".to_vec());
}

#[test]
fn multibyte_character_is_emitted_whole() {
    let mut w = DefaultWriter::new(BytesWriter::new());
    // U+00E9, two bytes
    w.putchar(0xc3).unwrap();
    assert_eq!(w.into_inner().into_bytes(), Vec::<u8>::new());

    let mut w = DefaultWriter::new(BytesWriter::new());
    w.putchar(0xc3).unwrap();
    w.putchar(0xa9).unwrap();
    w.putchar(b'!').unwrap();
    assert_eq!(collected(w), vec![0xc3, 0xa9, b'!']);
}

#[test]
fn four_byte_character_is_emitted_whole() {
    let mut w = DefaultWriter::new(BytesWriter::new());
    // U+1F600, four bytes
    for b in [0xf0u8, 0x9f, 0x98, 0x80] {
        w.putchar(b).unwrap();
    }
    assert_eq!(collected(w), vec![0xf0, 0x9f, 0x98, 0x80]);
}

#[test]
fn ascii_after_stray_continuation_flushes_spaces() {
    let mut w = DefaultWriter::new(BytesWriter::new());
    w.putchar(0xc3).unwrap();
    w.putchar(b'B').unwrap();
    assert_eq!(collected(w), vec![b' ', b'B']);
}

#[test]
fn flush_replaces_invalid_buffer_with_spaces() {
    let mut w = DefaultWriter::new(BytesWriter::new());
    w.putchar(0xf0).unwrap();
    w.putchar(0x9f).unwrap();
    w.flush().unwrap();
    assert_eq!(collected(w), vec![b' ', b' ']);
}

#[test]
fn seven_buffered_bytes_force_a_flush() {
    let mut w = DefaultWriter::new(BytesWriter::new());
    for _ in 0..7 {
        w.putchar(0xc3).unwrap();
    }
    assert_eq!(collected(w), vec![b' '; 7]);
}

#[test]
fn three_byte_character_is_emitted_whole() {
    let mut w = DefaultWriter::new(BytesWriter::new());
    // U+20AC, three bytes
    for b in [0xe2u8, 0x82, 0xac] {
        w.putchar(b).unwrap();
    }
    assert_eq!(collected(w), vec![0xe2, 0x82, 0xac]);
}

#[test]
fn surrogate_range_is_not_valid_utf8() {
    let mut w = DefaultWriter::new(BytesWriter::new());
    // 0xed 0xa0 would start a surrogate code point
    w.putchar(0xed).unwrap();
    w.putchar(0xa0).unwrap();
    w.putchar(b'x').unwrap();
    assert_eq!(collected(w), vec![b' ', b' ', b'x']);
}
