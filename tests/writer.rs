use fixcat::book::{OrderBook, PxSz, MAX_LEVELS, MAX_PRICE_STEP, MAX_SIZE, MIN_SIZE};
use fixcat::decimal::parse_decimal;
use fixcat::encode::write_orderbook;
use fixcat::field::{decode_body, field_to_tag_value, get_field};
use fixcat::header::{read_standard_header, read_standard_trailer};
use fixcat::message::{write_message, BODY_ROOM, HEADER_ROOM};
use fixcat::writer::AsciiWriter;
use fixcat::SOH;

fn written(w: &AsciiWriter) -> &[u8] {
    &w.buf[..w.len()]
}

#[test]
fn write_u32_zero_and_max() {
    let mut w = AsciiWriter::new(vec![0u8; 32]);
    w.write_u32(0);
    assert_eq!(written(&w), b"0");
    w.clear();
    assert_eq!(w.len(), 0);
    w.write_u32(4294967295);
    assert_eq!(written(&w), b"4294967295");
}

#[test]
fn write_usize_digits() {
    let mut w = AsciiWriter::new(vec![0u8; 64]);
    w.write_usize(10);
    w.write_raw_u8(b'|');
    w.write_usize(usize::MAX);
    let expected = format!("10|{}", usize::MAX);
    assert_eq!(written(&w), expected.as_bytes());
}

#[test]
fn write_buf_and_raw_bytes() {
    let mut w = AsciiWriter::new(vec![7u8; 16]);
    w.write_buf(b"268=");
    w.write_u32(1204);
    w.write_raw_u8(SOH);
    assert_eq!(written(&w), b"268=1204\x01");
    assert_eq!(w.len(), 9);
    w.clear();
    w.write_buf(b"");
    assert_eq!(w.len(), 0);
}

#[test]
fn integers_round_trip_through_fields() {
    let values: [u32; 5] = [0, 9, 10, 65535, 4294967295];
    let mut w = AsciiWriter::new(vec![0u8; 256]);
    for v in values.iter() {
        w.write_buf(b"270=");
        w.write_u32(*v);
        w.write_raw_u8(SOH);
    }
    let bytes = written(&w).to_vec();
    let mut start = 0;
    for v in values.iter() {
        let token = get_field(&bytes[start..], SOH);
        let (tag, value) = field_to_tag_value(token).unwrap();
        assert_eq!(tag, b"270");
        assert_eq!(parse_decimal(value), Ok(*v as usize));
        start += token.len() + 1;
    }
    assert_eq!(start, bytes.len());
}

#[test]
fn empty_book() {
    let dom = OrderBook::new();
    assert_eq!(dom.bid_num, 0);
    assert_eq!(dom.ask_num, 0);
    assert_eq!(dom.bids.len(), MAX_LEVELS);
    assert_eq!(dom.asks.len(), MAX_LEVELS);
    assert_eq!(dom.bids[3].price, 0);
    let l = PxSz::new();
    assert_eq!((l.price, l.size), (0, 0));
}

#[test]
fn book_from_draws() {
    let mut dom = OrderBook::new();
    dom.generate_from(1000, &[(3, 10), (1, 20)], &[(9, 30)]);
    assert_eq!(dom.bid_num, 2);
    assert_eq!(dom.ask_num, 1);
    assert_eq!((dom.bids[0].price, dom.bids[0].size), (997, 10));
    assert_eq!((dom.bids[1].price, dom.bids[1].size), (996, 20));
    assert_eq!((dom.asks[0].price, dom.asks[0].size), (1009, 30));
}

#[test]
fn generated_book_is_ordered() {
    let mut dom = OrderBook::new();
    for _ in 0..50 {
        dom.generate(10, 10, 1000);
        assert_eq!(dom.bid_num, 10);
        assert_eq!(dom.ask_num, 10);
        for i in 0..10 {
            assert!(dom.bids[i].price < 1000);
            assert!(dom.asks[i].price > 1000);
            assert!(dom.bids[i].size >= MIN_SIZE && dom.bids[i].size < MAX_SIZE);
            assert!(dom.asks[i].size >= MIN_SIZE && dom.asks[i].size < MAX_SIZE);
            if i > 0 {
                assert!(dom.bids[i].price < dom.bids[i - 1].price);
                assert!(dom.asks[i].price > dom.asks[i - 1].price);
                assert!(dom.bids[i - 1].price - dom.bids[i].price < MAX_PRICE_STEP);
                assert!(dom.asks[i].price - dom.asks[i - 1].price < MAX_PRICE_STEP);
            }
        }
        assert!(1000 - dom.bids[0].price < MAX_PRICE_STEP);
    }
}

#[test]
fn orderbook_group_bytes() {
    let mut dom = OrderBook::new();
    dom.generate_from(100, &[(2, 5)], &[(1, 7), (4, 8)]);
    let mut w = AsciiWriter::new(vec![0u8; 1024]);
    write_orderbook(&mut w, &dom);
    let expected = b"268=3\x01269=0\x01270=98\x01271=5\x01269=1\x01270=101\x01271=7\x01269=1\x01270=105\x01271=8\x01";
    assert_eq!(written(&w), &expected[..]);
}

#[test]
fn encode_then_decode() {
    let mut dom = OrderBook::new();
    dom.generate(10, 10, 1000);
    let mut header = AsciiWriter::new(vec![0u8; HEADER_ROOM]);
    let mut body = AsciiWriter::new(vec![0u8; BODY_ROOM]);
    write_message(&mut header, &mut body, &dom);

    let mut msg = written(&header).to_vec();
    msg.extend_from_slice(written(&body));

    let (sh, consume) = read_standard_header(&msg, SOH).unwrap();
    assert_eq!(sh.begin_string, "FIX.4.4");
    assert_eq!(sh.msg_type, "W");
    assert_eq!(consume, header.len());
    assert_eq!(sh.body_length, body.len() - 7);

    let content = &msg[consume..consume + sh.body_length];
    let pairs = decode_body(content, SOH).unwrap();
    assert_eq!(pairs.len(), 6 + 1 + 3 * 20);
    assert_eq!(pairs[0], (&b"35"[..], &b"W"[..]));
    assert_eq!(pairs[5], (&b"55"[..], &b"EURUSD"[..]));
    assert_eq!(pairs[6], (&b"268"[..], &b"20"[..]));
    for i in 0..10 {
        let base = 7 + 3 * i;
        assert_eq!(pairs[base], (&b"269"[..], &b"0"[..]));
        assert_eq!(pairs[base + 1].1, dom.bids[i].price.to_string().as_bytes());
        assert_eq!(pairs[base + 2].1, dom.bids[i].size.to_string().as_bytes());
        let base = 37 + 3 * i;
        assert_eq!(pairs[base], (&b"269"[..], &b"1"[..]));
        assert_eq!(pairs[base + 1].1, dom.asks[i].price.to_string().as_bytes());
        assert_eq!(pairs[base + 2].1, dom.asks[i].size.to_string().as_bytes());
    }

    let (st, n) = read_standard_trailer(&msg[consume + sh.body_length..], SOH).unwrap();
    assert_eq!(st.check_sum, "543");
    assert_eq!(consume + sh.body_length + n, msg.len());
}

#[test]
fn writes_fit_exactly_and_keep_later_bytes() {
    let mut w = AsciiWriter::new(vec![b'x'; 8]);
    w.write_u32(12345);
    assert_eq!(&w.buf[..], b"12345xxx");
    w.write_raw_u8(b'|');
    assert_eq!(&w.buf[..], b"12345|xx");
    w.write_usize(42);
    assert_eq!(&w.buf[..], b"12345|42");
    w.clear();
    w.write_buf(b"ab");
    assert_eq!(&w.buf[..], b"ab345|42");
    assert_eq!(written(&w), b"ab");
}

#[test]
fn orderbook_group_in_exact_room() {
    let mut dom = OrderBook::new();
    dom.generate_from(100, &[(2, 5)], &[]);
    let expected = b"268=1\x01269=0\x01270=98\x01271=5\x01";
    let mut w = AsciiWriter::new(vec![0u8; expected.len()]);
    write_orderbook(&mut w, &dom);
    assert_eq!(written(&w), &expected[..]);
}
