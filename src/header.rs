use vstd::prelude::*;
use vstd::utf8::{encode_utf8, valid_utf8};

use crate::decimal::{decimal_ok, digits_value, parse_decimal};
use crate::error::FixError;
use crate::field::{field_spec, field_to_tag_value, get_field, splits, tag_of, value_of, bytes_to_str};

verus! {

/// The fields of a message before its body.
pub struct StandardHeader {
    /// BeginString(8).
    pub begin_string: String,
    /// BodyLength(9): bytes from MsgType through the last separator before CheckSum.
    pub body_length: usize,
    /// MsgType(35).
    pub msg_type: String,
    /// SecureDataLen(90).
    pub secure_data_len: Option<usize>,
    /// MessageEncoding(347).
    pub message_encoding: Option<String>,
}

/// The fields of a message after its body.
pub struct StandardTrailer {
    /// CheckSum(10), three decimal digits; read, never recomputed.
    pub check_sum: String,
    /// SignatureLength(93).
    pub signature_len: Option<usize>,
    /// Signature(89).
    pub signature: Option<String>,
}

impl StandardTrailer {
    /// A trailer with the given CheckSum and no signature.
    pub fn new(check_sum: String) -> (r: Self)
        ensures
            r.check_sum@ == check_sum@,
            r.signature_len is None,
            r.signature is None,
    {
        StandardTrailer { check_sum, signature_len: None, signature: None }
    }
}

impl StandardHeader {
    /// A header with the given BeginString and BodyLength, an empty MsgType
    /// and no optional fields.
    pub fn new(begin_string: String, body_length: usize) -> (r: Self)
        ensures
            r.begin_string@ == begin_string@,
            r.body_length == body_length,
            r.msg_type@.len() == 0,
            r.secure_data_len is None,
            r.message_encoding is None,
    {
        StandardHeader {
            begin_string,
            body_length,
            msg_type: String::new(),
            secure_data_len: None,
            message_encoding: None,
        }
    }
}

/// Tag BeginString: `8`.
pub open spec fn tag_begin_string() -> Seq<u8> {
    seq![56u8]
}

/// Tag BodyLength: `9`.
pub open spec fn tag_body_length() -> Seq<u8> {
    seq![57u8]
}

/// Tag MsgType: `35`.
pub open spec fn tag_msg_type() -> Seq<u8> {
    seq![51u8, 53u8]
}

/// Tag CheckSum: `10`.
pub open spec fn tag_check_sum() -> Seq<u8> {
    seq![49u8, 48u8]
}

/// The token that starts at `start`.
pub open spec fn token_at(s: Seq<u8>, start: int, sep: u8) -> Seq<u8> {
    field_spec(s.skip(start), sep)
}

/// BeginString and BodyLength at the front of `s`: their values and the
/// number of bytes both fields take, separators included.
pub open spec fn prefix_spec(s: Seq<u8>, sep: u8) -> Result<(Seq<u8>, nat, nat), FixError> {
    let t1 = token_at(s, 0, sep);
    let second = t1.len() + 1int;
    let t2 = token_at(s, second, sep);
    if !splits(t1) {
        Err(FixError::MalformedField)
    } else if tag_of(t1) != tag_begin_string() {
        Err(FixError::UnexpectedTag)
    } else if !valid_utf8(value_of(t1)) {
        Err(FixError::Encoding)
    } else if !splits(t2) {
        Err(FixError::MalformedField)
    } else if tag_of(t2) != tag_body_length() {
        Err(FixError::UnexpectedTag)
    } else if !decimal_ok(value_of(t2)) {
        Err(FixError::Parse)
    } else {
        Ok((value_of(t1), digits_value(value_of(t2)), (second + t2.len() + 1) as nat))
    }
}

/// The three framing fields at the front of `s`: BeginString, BodyLength and
/// MsgType, and the bytes to consume, which cover the first two fields only.
pub open spec fn header_spec(s: Seq<u8>, sep: u8) -> Result<(Seq<u8>, nat, Seq<u8>, nat), FixError> {
    match prefix_spec(s, sep) {
        Err(e) => Err(e),
        Ok((bs, len, consume)) => {
            let t3 = token_at(s, consume as int, sep);
            if !splits(t3) {
                Err(FixError::MalformedField)
            } else if tag_of(t3) != tag_msg_type() {
                Err(FixError::UnexpectedTag)
            } else if !valid_utf8(value_of(t3)) {
                Err(FixError::Encoding)
            } else {
                Ok((bs, len, value_of(t3), consume))
            }
        },
    }
}

/// CheckSum at the front of `s`: its value and the bytes the field takes.
pub open spec fn trailer_spec(s: Seq<u8>, sep: u8) -> Result<(Seq<u8>, nat), FixError> {
    let t = token_at(s, 0, sep);
    if !splits(t) {
        Err(FixError::MalformedField)
    } else if tag_of(t) != tag_check_sum() {
        Err(FixError::UnexpectedTag)
    } else if !valid_utf8(value_of(t)) {
        Err(FixError::Encoding)
    } else {
        Ok((value_of(t), t.len() + 1))
    }
}

/// Whether a tag slice is the one-byte tag `a`.
fn tag_is1(tag: &[u8], a: u8) -> (r: bool)
    ensures
        r <==> tag@ == seq![a],
{
    if tag.len() == 1 && tag[0] == a {
        assert(tag@ =~= seq![a]);
        true
    } else {
        false
    }
}

/// Whether a tag slice is the two-byte tag `a b`.
fn tag_is2(tag: &[u8], a: u8, b: u8) -> (r: bool)
    ensures
        r <==> tag@ == seq![a, b],
{
    if tag.len() == 2 && tag[0] == a && tag[1] == b {
        assert(tag@ =~= seq![a, b]);
        true
    } else {
        false
    }
}

/// Copies text into an owned string.
fn owned(s: &str) -> (r: String)
    ensures
        r@ == s@,
{
    s.to_owned()
}

/// The token of `buf` that starts at `start`.
fn token_from(buf: &[u8], start: usize, sep: u8) -> (r: &[u8])
    requires
        start <= buf@.len(),
    ensures
        r@ == token_at(buf@, start as int, sep),
{
    let rest = vstd::slice::slice_subrange(buf, start, buf.len());
    assert(rest@ =~= buf@.skip(start as int));
    get_field(rest, sep)
}

/// A token that is not empty ends before the end of the buffer.
proof fn lemma_token_fits(s: Seq<u8>, start: int, sep: u8)
    requires
        0 <= start <= s.len(),
        token_at(s, start, sep).len() > 0,
    ensures
        start + token_at(s, start, sep).len() + 1 <= s.len(),
{
    crate::field::lemma_sep_pos_bound(s.skip(start), sep);
}

/// Reads BeginString and BodyLength: their values and the bytes both take.
fn read_prefix(buf: &[u8], sep: u8) -> (r: Result<(String, usize, usize), FixError>)
    ensures
        match r {
            Ok((bs, len, n)) => prefix_spec(buf@, sep) == Ok::<(Seq<u8>, nat, nat), FixError>(
                (encode_utf8(bs@), len as nat, n as nat),
            ),
            Err(e) => prefix_spec(buf@, sep) == Err::<(Seq<u8>, nat, nat), FixError>(e),
        },
{
    // Offsets into `buf` stay within its length, which fits in a `usize`.
    let _len = buf.len();
    assert(buf@.skip(0) =~= buf@);
    let t1 = token_from(buf, 0, sep);
    let (tag1, value1) = field_to_tag_value(t1)?;
    if !tag_is1(tag1, 56) {
        return Err(FixError::UnexpectedTag);
    }
    let begin_string = owned(bytes_to_str(value1)?);
    proof {
        lemma_token_fits(buf@, 0, sep);
    }
    let second = t1.len() + 1;
    let t2 = token_from(buf, second, sep);
    let (tag2, value2) = field_to_tag_value(t2)?;
    if !tag_is1(tag2, 57) {
        return Err(FixError::UnexpectedTag);
    }
    let body_length = parse_decimal(value2)?;
    proof {
        lemma_token_fits(buf@, second as int, sep);
    }
    Ok((begin_string, body_length, second + t2.len() + 1))
}

/// Frames a message: reads BeginString, BodyLength and, looking ahead without
/// consuming it, MsgType. Also returns how many bytes to consume, which covers
/// BeginString and BodyLength only, so that the next `body_length` bytes start
/// at MsgType.
pub fn read_standard_header(buf: &[u8], field_separator: u8) -> (r: Result<(StandardHeader, usize), FixError>)
    ensures
        match r {
            Ok((h, n)) => {
                &&& header_spec(buf@, field_separator) == Ok::<(Seq<u8>, nat, Seq<u8>, nat), FixError>(
                    (encode_utf8(h.begin_string@), h.body_length as nat, encode_utf8(h.msg_type@), n as nat),
                )
                &&& h.secure_data_len is None
                &&& h.message_encoding is None
            },
            Err(e) => header_spec(buf@, field_separator) == Err::<(Seq<u8>, nat, Seq<u8>, nat), FixError>(e),
        },
{
    let (begin_string, body_length, consume_amt) = read_prefix(buf, field_separator)?;
    proof {
        let t1 = token_at(buf@, 0, field_separator);
        lemma_token_fits(buf@, 0, field_separator);
        lemma_token_fits(buf@, t1.len() + 1int, field_separator);
    }
    let t3 = token_from(buf, consume_amt, field_separator);
    let (tag3, value3) = field_to_tag_value(t3)?;
    if !tag_is2(tag3, 51, 53) {
        return Err(FixError::UnexpectedTag);
    }
    let msg_type = owned(bytes_to_str(value3)?);
    let mut sh = StandardHeader::new(begin_string, body_length);
    sh.msg_type = msg_type;
    Ok((sh, consume_amt))
}

/// Reads BeginString and BodyLength from a buffer that starts with them,
/// and how many bytes the two fields take; MsgType is left empty.
pub fn read_header(head: &[u8], field_separator: u8) -> (r: Result<(StandardHeader, usize), FixError>)
    ensures
        match r {
            Ok((h, n)) => {
                &&& prefix_spec(head@, field_separator) == Ok::<(Seq<u8>, nat, nat), FixError>(
                    (encode_utf8(h.begin_string@), h.body_length as nat, n as nat),
                )
                &&& h.msg_type@.len() == 0
                &&& h.secure_data_len is None
                &&& h.message_encoding is None
            },
            Err(e) => prefix_spec(head@, field_separator) == Err::<(Seq<u8>, nat, nat), FixError>(e),
        },
{
    let (begin_string, body_length, n) = read_prefix(head, field_separator)?;
    Ok((StandardHeader::new(begin_string, body_length), n))
}

/// Reads CheckSum, without verifying it, and the number of bytes it takes.
pub fn read_standard_trailer(buf: &[u8], field_separator: u8) -> (r: Result<(StandardTrailer, usize), FixError>)
    ensures
        match r {
            Ok((t, n)) => {
                &&& trailer_spec(buf@, field_separator) == Ok::<(Seq<u8>, nat), FixError>(
                    (encode_utf8(t.check_sum@), n as nat),
                )
                &&& t.signature_len is None
                &&& t.signature is None
            },
            Err(e) => trailer_spec(buf@, field_separator) == Err::<(Seq<u8>, nat), FixError>(e),
        },
{
    // The span of the field stays within the length of `buf`, a `usize`.
    let _len = buf.len();
    assert(buf@.skip(0) =~= buf@);
    let token = get_field(buf, field_separator);
    let (tag, value) = field_to_tag_value(token)?;
    if !tag_is2(tag, 49, 48) {
        return Err(FixError::UnexpectedTag);
    }
    let check_sum = owned(bytes_to_str(value)?);
    proof {
        lemma_token_fits(buf@, 0, field_separator);
    }
    Ok((StandardTrailer::new(check_sum), token.len() + 1))
}

/// The CheckSum value at the front of `buf`, unverified, and the number of
/// bytes its field takes.
pub fn read_crc(buf: &[u8], field_separator: u8) -> (r: Result<(String, usize), FixError>)
    ensures
        match r {
            Ok((c, n)) => trailer_spec(buf@, field_separator) == Ok::<(Seq<u8>, nat), FixError>(
                (encode_utf8(c@), n as nat),
            ),
            Err(e) => trailer_spec(buf@, field_separator) == Err::<(Seq<u8>, nat), FixError>(e),
        },
{
    let (t, n) = read_standard_trailer(buf, field_separator)?;
    Ok((t.check_sum, n))
}

} // verus!
