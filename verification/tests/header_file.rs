use eink_disp::header_file::{header_definition, hex_digit, write_header_buffer};
use eink_disp::sink::{BoundedSink, Sink, SinkFull};

const START: &str = "const unsigned char gImage_alberteinstein[15000] = {\n";
const END: &str = "};\n";

fn header_of(buf: &[u8]) -> String {
    let mut out: Vec<u8> = Vec::new();
    write_header_buffer(buf, &mut out).unwrap();
    String::from_utf8(out).unwrap()
}

fn parse_back(text: &str) -> Vec<u8> {
    let body = text.strip_prefix(START).unwrap().strip_suffix(END).unwrap();
    let joined: String = body.split('\n').collect();
    let mut bytes = Vec::new();
    for token in joined.split_terminator(',') {
        assert_eq!(token.len(), 4);
        assert!(token.starts_with("0x"));
        assert_eq!(token, token.to_lowercase());
        bytes.push(u8::from_str_radix(&token[2..], 16).unwrap());
    }
    bytes
}

#[test]
fn hex_digits_are_lowercase() {
    let digits: Vec<u8> = (0..16u8).map(hex_digit).collect();
    assert_eq!(digits, b"0123456789abcdef".to_vec());
}

#[test]
fn empty_buffer_gives_an_empty_array() {
    assert_eq!(header_of(&[]), format!("{}{}", START, END));
}

#[test]
fn sixteen_zero_bytes_give_sixteen_tokens() {
    let text = header_of(&[0u8; 16]);
    let line = "0x00,".repeat(16);
    assert_eq!(text, format!("{}{}\n{}", START, line, END));
    assert_eq!(text.matches("0x00,").count(), 16);
    assert_eq!(parse_back(&text), vec![0u8; 16]);
}

#[test]
fn tokens_are_zero_padded_two_digit_hex() {
    assert_eq!(
        header_of(&[0, 1, 10, 15, 16, 171, 255]),
        format!("{}0x00,0x01,0x0a,0x0f,0x10,0xab,0xff,{}", START, END)
    );
}

#[test]
fn line_breaks_after_every_sixteenth_token() {
    let buf: Vec<u8> = (0..40u8).collect();
    let text = header_of(&buf);
    let body = text.strip_prefix(START).unwrap().strip_suffix(END).unwrap();
    let lines: Vec<&str> = body.split('\n').collect();
    assert_eq!(lines.len(), 3);
    assert_eq!(lines[0].matches(',').count(), 16);
    assert_eq!(lines[1].matches(',').count(), 16);
    assert_eq!(lines[2].matches(',').count(), 8);
    assert_eq!(lines[1], "0x10,0x11,0x12,0x13,0x14,0x15,0x16,0x17,0x18,0x19,0x1a,0x1b,0x1c,0x1d,0x1e,0x1f,");
}

#[test]
fn every_byte_value_round_trips() {
    let buf: Vec<u8> = (0..=255u8).collect();
    let text = header_of(&buf);
    assert_eq!(text.matches(',').count(), 256);
    assert_eq!(parse_back(&text), buf);
    for (i, b) in buf.iter().enumerate() {
        let token = format!("{:#04x},", b);
        let at = START.len() + 5 * i + i / 16;
        assert_eq!(&text[at..at + 5], token);
    }
}

#[test]
fn array_appends_to_what_the_sink_holds() {
    let mut out: Vec<u8> = b"// generated\n".to_vec();
    write_header_buffer(&[254], &mut out).unwrap();
    assert_eq!(String::from_utf8(out).unwrap(), format!("// generated\n{}0xfe,{}", START, END));
}

#[test]
fn array_stops_at_the_first_failed_write() {
    let buf: Vec<u8> = (0..20u8).collect();
    let whole = header_of(&buf);
    for limit in 0..whole.len() {
        let mut sink = BoundedSink::new(limit);
        assert_eq!(write_header_buffer(&buf, &mut sink), Err(SinkFull));
        assert_eq!(sink.bytes(), &whole.as_bytes()[..limit]);
    }
    let mut sink = BoundedSink::new(whole.len());
    assert_eq!(write_header_buffer(&buf, &mut sink), Ok(()));
    assert_eq!(sink.bytes(), whole.as_bytes());
}

#[test]
fn bounded_sink_takes_what_fits_and_then_nothing() {
    let mut sink = BoundedSink::new(5);
    assert_eq!(sink.write_all(b"abc"), Ok(()));
    assert_eq!(sink.write_all(b"defg"), Err(SinkFull));
    assert_eq!(sink.bytes(), b"abcde");
    assert_eq!(sink.write_all(b"h"), Err(SinkFull));
    assert_eq!(sink.write_all(b""), Ok(()));
    assert_eq!(sink.bytes(), b"abcde");
}

#[test]
fn vec_sink_takes_every_write() {
    let mut out: Vec<u8> = Vec::new();
    assert_eq!(Sink::write_all(&mut out, b"ab"), Ok(()));
    assert_eq!(Sink::write_all(&mut out, b"cd"), Ok(()));
    assert_eq!(out, b"abcd".to_vec());
}

#[test]
fn definition_is_the_text_written_to_an_empty_buffer() {
    let buf: Vec<u8> = (0..100u8).collect();
    assert_eq!(String::from_utf8(header_definition(&buf)).unwrap(), header_of(&buf));
    assert_eq!(header_definition(&[255, 0]), format!("{}0xff,0x00,{}", START, END).into_bytes());
}
