use fixcat::decimal::parse_decimal;
use fixcat::error::FixError;
use fixcat::header::{read_crc, read_header, read_standard_header, read_standard_trailer, StandardHeader, StandardTrailer};
use fixcat::{PIPE, SOH};

const MSG: &[u8] = b"8=FIX.4.4|9=5|35=A|10=000|";

#[test]
fn framer_reads_header_and_consumes_two_fields() {
    let (sh, consume) = read_standard_header(MSG, PIPE).unwrap();
    assert_eq!(sh.begin_string, "FIX.4.4");
    assert_eq!(sh.body_length, 5);
    assert_eq!(sh.msg_type, "A");
    assert_eq!(sh.secure_data_len, None);
    assert_eq!(sh.message_encoding, None);
    assert_eq!(consume, "8=FIX.4.4|9=5|".len());
    assert_eq!(&MSG[consume..consume + sh.body_length], b"35=A|");
}

#[test]
fn trailer_follows_the_body() {
    let (sh, consume) = read_standard_header(MSG, PIPE).unwrap();
    let (st, n) = read_standard_trailer(&MSG[consume + sh.body_length..], PIPE).unwrap();
    assert_eq!(st.check_sum, "000");
    assert_eq!(n, 7);
    assert_eq!(st.signature_len, None);
    assert_eq!(st.signature, None);
}

#[test]
fn framer_with_soh() {
    let msg = b"8=FIX.4.2\x019=12\x0135=D\x0155=X\x01";
    let (sh, consume) = read_standard_header(msg, SOH).unwrap();
    assert_eq!(sh.begin_string, "FIX.4.2");
    assert_eq!(sh.body_length, 12);
    assert_eq!(sh.msg_type, "D");
    assert_eq!(consume, 15);
}

#[test]
fn framer_errors() {
    assert_eq!(read_standard_header(b"", PIPE).err(), Some(FixError::MalformedField));
    assert_eq!(read_standard_header(b"8=FIX.4.4", PIPE).err(), Some(FixError::MalformedField));
    assert_eq!(read_standard_header(b"7=FIX.4.4|9=5|35=A|", PIPE).err(), Some(FixError::UnexpectedTag));
    assert_eq!(read_standard_header(b"8=FIX.4.4|10=5|35=A|", PIPE).err(), Some(FixError::UnexpectedTag));
    assert_eq!(read_standard_header(b"8=FIX.4.4|9=5x|35=A|", PIPE).err(), Some(FixError::Parse));
    assert_eq!(read_standard_header(b"8=FIX.4.4|9=5|34=A|", PIPE).err(), Some(FixError::UnexpectedTag));
    assert_eq!(read_standard_header(b"8=FIX.4.4|9=5|35=A", PIPE).err(), Some(FixError::MalformedField));
    assert_eq!(read_standard_header(b"8=\xff|9=5|35=A|", PIPE).err(), Some(FixError::Encoding));
    assert_eq!(read_standard_header(b"=FIX.4.4|9=5|35=A|", PIPE).err(), Some(FixError::MalformedField));
}

#[test]
fn head_buffer_reader() {
    let (sh, n) = read_header(b"8=FIX.4.4\x019=120\x01", SOH).unwrap();
    assert_eq!(sh.begin_string, "FIX.4.4");
    assert_eq!(sh.body_length, 120);
    assert_eq!(sh.msg_type, "");
    assert_eq!(n, 16);
    let (sh, n) = read_header(MSG, PIPE).unwrap();
    assert_eq!(sh.body_length, 5);
    assert_eq!(n, 14);
    assert_eq!(&MSG[n..], b"35=A|10=000|");
    assert_eq!(read_header(b"8=FIX.4.4\x01", SOH).err(), Some(FixError::MalformedField));
}

#[test]
fn trailer_errors_and_span() {
    assert_eq!(read_crc(b"10=123\x01", SOH), Ok((String::from("123"), 7)));
    assert_eq!(read_crc(b"11=123\x01", SOH), Err(FixError::UnexpectedTag));
    assert_eq!(read_crc(b"10=123", SOH), Err(FixError::MalformedField));
    assert_eq!(read_standard_trailer(b"10=\x80|", PIPE).err(), Some(FixError::Encoding));
}

#[test]
fn constructors() {
    let sh = StandardHeader::new(String::from("FIX.4.4"), 42);
    assert_eq!(sh.begin_string, "FIX.4.4");
    assert_eq!(sh.body_length, 42);
    assert_eq!(sh.msg_type, "");
    let st = StandardTrailer::new(String::from("123"));
    assert_eq!(st.check_sum, "123");
    assert_eq!(st.signature, None);
}

#[test]
fn decimal_parsing() {
    assert_eq!(parse_decimal(b"0"), Ok(0));
    assert_eq!(parse_decimal(b"007"), Ok(7));
    assert_eq!(parse_decimal(b"4294967295"), Ok(4294967295));
    assert_eq!(parse_decimal(b""), Err(FixError::Parse));
    assert_eq!(parse_decimal(b"+5"), Err(FixError::Parse));
    assert_eq!(parse_decimal(b"1 2"), Err(FixError::Parse));
    let max = usize::MAX.to_string();
    assert_eq!(parse_decimal(max.as_bytes()), Ok(usize::MAX));
    let over = format!("{}0", usize::MAX);
    assert_eq!(parse_decimal(over.as_bytes()), Err(FixError::Parse));
}
