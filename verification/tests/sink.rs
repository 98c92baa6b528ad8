use eink_disp::header_file::write_header_buffer;
use eink_disp::inline_bytes::InlineBytes;
use eink_disp::ppm::write_ppm_buffer;
use eink_disp::sink::{BoundedSink, Sink, SinkFull};

#[test]
fn sink_with_exact_room_takes_the_whole_image() {
    let mut whole: Vec<u8> = Vec::new();
    write_ppm_buffer(2, 2, &[1, 2, 3, 4], &mut whole).unwrap();
    let mut sink = BoundedSink::new(whole.len());
    assert_eq!(write_ppm_buffer(2, 2, &[1, 2, 3, 4], &mut sink), Ok(()));
    assert!(!sink.has_failed());
    assert_eq!(sink.bytes(), &whole[..]);
    assert_eq!(sink.write_all(b"x"), Err(SinkFull));
    assert!(sink.has_failed());
}

#[test]
fn failed_write_is_returned_and_nothing_follows_it() {
    let mut whole: Vec<u8> = Vec::new();
    write_header_buffer(&[1, 2, 3], &mut whole).unwrap();
    // Room for the opening line and half a token: the token's write fails.
    let mut sink = BoundedSink::new(53 + 2);
    assert_eq!(write_header_buffer(&[1, 2, 3], &mut sink), Err(SinkFull));
    assert!(sink.has_failed());
    assert_eq!(sink.bytes(), &whole[..55]);
    // No room at all: the first write fails and the sink stays empty.
    let mut sink = BoundedSink::new(0);
    assert_eq!(write_header_buffer(&[1, 2, 3], &mut sink), Err(SinkFull));
    assert_eq!(sink.bytes(), b"");
}

#[test]
fn inline_bytes_start_empty_and_grow_at_the_front() {
    let mut v = InlineBytes::new();
    assert_eq!(v.len(), 0);
    assert_eq!(v.as_slice(), b"");
    v.push_front(b'c');
    v.push_front(b'b');
    v.push_front(b'a');
    assert_eq!(v.as_slice(), b"abc");
    assert_eq!(v.len(), 3);
}

#[test]
fn inline_bytes_grow_past_their_inline_size() {
    let mut v = InlineBytes::new();
    for i in 0..40u8 {
        v.push_front(i);
    }
    let expected: Vec<u8> = (0..40u8).rev().collect();
    assert_eq!(v.as_slice(), &expected[..]);
}
