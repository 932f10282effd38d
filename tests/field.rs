use fixcat::error::FixError;
use fixcat::field::{bytes_to_str, decode_body, field_to_tag_value, get_field, get_field_as_string};
use fixcat::{PIPE, SOH, TAG_DELIMETER};

#[test]
fn empty_field() {
    let result = get_field(&[], SOH);
    assert_eq!(result, []);
}

#[test]
fn pipe_field() {
    let result = get_field(&[SOH], SOH);
    assert_eq!(result, []);
}

#[test]
fn simple_field() {
    let result = get_field(&[12, 13, 15, SOH, 56, 78, SOH], SOH);
    assert_eq!(result, [12, 13, 15]);
}

#[test]
fn no_separator() {
    let result = get_field(&[12, 13, 14, 15], SOH);
    assert_eq!(result, []);
}

#[test]
fn empty_field_to_tv() {
    let res = field_to_tag_value(&[]);
    assert_eq!(res, Err(FixError::MalformedField));
}

#[test]
fn empty_value_to_tv() {
    let res = field_to_tag_value(&[12, 13, 14, TAG_DELIMETER]);
    assert_eq!(res, Err(FixError::MalformedField));
}

#[test]
fn no_tv_separator() {
    let res = field_to_tag_value(&[12, 13, 14]);
    assert_eq!(res, Err(FixError::MalformedField));
}

#[test]
fn field_to_tv() {
    let res = field_to_tag_value(&[12, 13, 14, TAG_DELIMETER, 56, 67]).unwrap();
    assert_eq!(res.0, [12, 13, 14]);
    assert_eq!(res.1, [56, 67]);
}

#[test]
fn field_short_to_tv() {
    let res = field_to_tag_value(&[12, TAG_DELIMETER, 56]).unwrap();
    assert_eq!(res.0, [12]);
    assert_eq!(res.1, [56]);
}

#[test]
fn split_at_first_equals_sign() {
    let res = field_to_tag_value(b"58=a=b").unwrap();
    assert_eq!(res.0, b"58");
    assert_eq!(res.1, b"a=b");
}

#[test]
fn empty_tag_is_rejected() {
    assert_eq!(field_to_tag_value(b"=x"), Err(FixError::MalformedField));
    assert_eq!(field_to_tag_value(b"="), Err(FixError::MalformedField));
}

#[test]
fn pipe_separated_field() {
    assert_eq!(get_field(b"8=FIX.4.4|9=5|", PIPE), b"8=FIX.4.4");
}

#[test]
fn split_then_rejoin_gives_the_token_back() {
    let buf = b"270=1005\x01271=12\x01";
    let token = get_field(buf, SOH);
    let (tag, value) = field_to_tag_value(token).unwrap();
    let mut joined = tag.to_vec();
    joined.push(TAG_DELIMETER);
    joined.extend_from_slice(value);
    joined.push(SOH);
    assert_eq!(&joined[..], &buf[..9]);
}

#[test]
fn field_as_string() {
    assert_eq!(get_field_as_string(b"55=EURUSD|", PIPE), Ok("55=EURUSD"));
    assert_eq!(get_field_as_string(b"55=EURUSD", PIPE), Ok(""));
    assert_eq!(get_field_as_string(&[0xff, 0xfe, PIPE], PIPE), Err(FixError::Encoding));
}

#[test]
fn text_from_bytes() {
    assert_eq!(bytes_to_str("é".as_bytes()), Ok("é"));
    assert_eq!(bytes_to_str(&[0xc3]), Err(FixError::Encoding));
}

#[test]
fn body_decodes_to_pairs() {
    let body = b"35=A|49=S|56=T|";
    let pairs = decode_body(body, PIPE).unwrap();
    assert_eq!(pairs.len(), 3);
    assert_eq!(pairs[0], (&b"35"[..], &b"A"[..]));
    assert_eq!(pairs[1], (&b"49"[..], &b"S"[..]));
    assert_eq!(pairs[2], (&b"56"[..], &b"T"[..]));
    assert_eq!(decode_body(b"", PIPE).unwrap().len(), 0);
}

#[test]
fn body_with_bad_field_fails() {
    assert_eq!(decode_body(b"35=A|49|", PIPE), Err(FixError::MalformedField));
    assert_eq!(decode_body(b"35=A|49=S", PIPE), Err(FixError::MalformedField));
    assert_eq!(decode_body(b"35=|", PIPE), Err(FixError::MalformedField));
    assert_eq!(decode_body(b"35=A|=S|", PIPE), Err(FixError::MalformedField));
}
