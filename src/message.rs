use vstd::prelude::*;

use crate::book::OrderBook;
use crate::encode::{book_fields, write_orderbook, Fields};
use crate::field::{field_bytes, join_fields, lemma_join_concat};
use crate::writer::{dec, lemma_dec_len_usize, AsciiWriter};
use crate::roundtrip::lemma_book_fields;
use crate::SOH;

verus! {

/// Room the header buffer of `write_message` needs.
pub const HEADER_ROOM: usize = 33;

/// Room the body buffer of `write_message` needs.
pub const BODY_ROOM: usize = 827;

/// BeginString value `FIX.4.4`.
pub open spec fn fix44() -> Seq<u8> {
    seq![70u8, 73, 88, 46, 52, 46, 52]
}

/// The fixed fields that open every body: MsgType(35) `W`, SenderCompID(49),
/// TargetCompID(56), MsgSeqNum(34), SendingTime(52) and Symbol(55).
pub open spec fn template_fields() -> Fields {
    seq![
        (seq![51u8, 53], seq![87u8]),
        (seq![52u8, 57], seq![83u8, 69, 78, 68, 69, 82, 95, 73, 68]),
        (seq![53u8, 54], seq![84u8, 65, 82, 71, 69, 84, 95, 73, 68]),
        (seq![51u8, 52], seq![49u8, 50, 51, 52, 53]),
        (seq![53u8, 50], seq![89u8, 89, 89, 89, 77, 77, 68, 68, 45, 72, 72, 58, 77, 77, 58, 83, 83, 46, 115, 115, 115]),
        (seq![53u8, 53], seq![69u8, 85, 82, 85, 83, 68]),
    ]
}

/// The body fields of the snapshot message of a book.
pub open spec fn body_fields(dom: OrderBook) -> Fields {
    template_fields() + book_fields(dom)
}

/// The bytes that BodyLength counts.
pub open spec fn message_body(dom: OrderBook) -> Seq<u8> {
    join_fields(body_fields(dom), SOH)
}

/// BeginString(8) and BodyLength(9) for a body of `len` bytes.
pub open spec fn header_fields(len: nat) -> Fields {
    seq![(seq![56u8], fix44()), (seq![57u8], dec(len))]
}

/// The trailer: CheckSum(10), a fixed placeholder `543`.
pub open spec fn trailer_fields() -> Fields {
    seq![(seq![49u8, 48], seq![53u8, 52, 51])]
}

/// The template fields as they stand on the wire.
pub proof fn lemma_template_bytes()
    ensures
        join_fields(template_fields(), SOH) == seq![
            51u8, 53, 61, 87, 1, 52, 57, 61, 83, 69, 78, 68, 69, 82, 95, 73, 68, 1, 53, 54, 61, 84, 65, 82, 71, 69, 84,
            95, 73, 68, 1, 51, 52, 61, 49, 50, 51, 52, 53, 1, 53, 50, 61, 89, 89, 89, 89, 77, 77, 68, 68, 45, 72, 72,
            58, 77, 77, 58, 83, 83, 46, 115, 115, 115, 1,
        ] + seq![53u8, 53, 61, 69, 85, 82, 85, 83, 68, 1],
{
    let t = template_fields();
    assert(join_fields(t.take(0), SOH) == Seq::<u8>::empty());
    assert(t.take(1).drop_last() =~= t.take(0));
    assert(t.take(2).drop_last() =~= t.take(1));
    assert(t.take(3).drop_last() =~= t.take(2));
    assert(t.take(4).drop_last() =~= t.take(3));
    assert(t.take(5).drop_last() =~= t.take(4));
    assert(t.take(6).drop_last() =~= t.take(5));
    assert(t.take(6) =~= t);
    assert(join_fields(t.take(1), SOH) == field_bytes(t[0].0, t[0].1, SOH));
    assert(join_fields(t.take(2), SOH) == join_fields(t.take(1), SOH) + field_bytes(t[1].0, t[1].1, SOH));
    assert(join_fields(t.take(3), SOH) == join_fields(t.take(2), SOH) + field_bytes(t[2].0, t[2].1, SOH));
    assert(join_fields(t.take(4), SOH) == join_fields(t.take(3), SOH) + field_bytes(t[3].0, t[3].1, SOH));
    assert(join_fields(t.take(5), SOH) == join_fields(t.take(4), SOH) + field_bytes(t[4].0, t[4].1, SOH));
    assert(join_fields(t.take(6), SOH) == join_fields(t.take(5), SOH) + field_bytes(t[5].0, t[5].1, SOH));
    assert(join_fields(t, SOH) =~= field_bytes(t[0].0, t[0].1, SOH) + field_bytes(t[1].0, t[1].1, SOH)
        + field_bytes(t[2].0, t[2].1, SOH) + field_bytes(t[3].0, t[3].1, SOH) + field_bytes(t[4].0, t[4].1, SOH)
        + field_bytes(t[5].0, t[5].1, SOH));
}

/// The header fields as they stand on the wire.
pub proof fn lemma_header_bytes(n: nat)
    ensures
        join_fields(header_fields(n), SOH) == seq![56u8, 61, 70, 73, 88, 46, 52, 46, 52, 1, 57, 61] + dec(n) + seq![
            SOH,
        ],
{
    let h = header_fields(n);
    assert(h.drop_last().drop_last() =~= Seq::<(Seq<u8>, Seq<u8>)>::empty());
    assert(join_fields(h.drop_last().drop_last(), SOH) == Seq::<u8>::empty());
    assert(join_fields(h.drop_last(), SOH) == field_bytes(h[0].0, h[0].1, SOH));
    assert(join_fields(h, SOH) == field_bytes(h[0].0, h[0].1, SOH) + field_bytes(h[1].0, h[1].1, SOH));
    assert(field_bytes(h[0].0, h[0].1, SOH) =~= seq![56u8, 61, 70, 73, 88, 46, 52, 46, 52, 1]);
    assert(field_bytes(h[1].0, h[1].1, SOH) =~= seq![57u8, 61] + dec(n) + seq![SOH]);
    assert(join_fields(h, SOH) =~= seq![56u8, 61, 70, 73, 88, 46, 52, 46, 52, 1, 57, 61] + dec(n) + seq![SOH]);
}

/// The trailer as it stands on the wire.
pub proof fn lemma_trailer_bytes()
    ensures
        join_fields(trailer_fields(), SOH) == seq![49u8, 48, 61, 53, 52, 51, 1],
{
    let t = trailer_fields();
    assert(t.drop_last() =~= Seq::<(Seq<u8>, Seq<u8>)>::empty());
    assert(join_fields(t.drop_last(), SOH) == Seq::<u8>::empty());
    assert(join_fields(t, SOH) =~= seq![49u8, 48, 61, 53, 52, 51, 1]);
}

/// Encodes the snapshot of `dom` in two passes: the body first, into `body`,
/// then the header, into `header`, with BodyLength set to the length of the
/// body written. The trailer follows the body.
pub fn write_message(header: &mut AsciiWriter, body: &mut AsciiWriter, dom: &OrderBook)
    requires
        old(header).wf(),
        old(body).wf(),
        dom.wf(),
        old(header).buf@.len() >= HEADER_ROOM,
        old(body).buf@.len() >= BODY_ROOM,
    ensures
        final(header).wf(),
        final(body).wf(),
        final(header).buf@.len() == old(header).buf@.len(),
        final(body).buf@.len() == old(body).buf@.len(),
        final(body).written() == message_body(*dom) + join_fields(trailer_fields(), SOH),
        final(header).written() == join_fields(header_fields(message_body(*dom).len()), SOH),
{
    header.clear();
    body.clear();
    let part1: [u8; 12] = [56, 61, 70, 73, 88, 46, 52, 46, 52, 1, 57, 61];
    header.write_buf(&part1);
    let part2: [u8; 65] = [
        51, 53, 61, 87, 1, 52, 57, 61, 83, 69, 78, 68, 69, 82, 95, 73, 68, 1, 53, 54, 61, 84, 65, 82, 71, 69, 84, 95,
        73, 68, 1, 51, 52, 61, 49, 50, 51, 52, 53, 1, 53, 50, 61, 89, 89, 89, 89, 77, 77, 68, 68, 45, 72, 72, 58, 77, 77,
        58, 83, 83, 46, 115, 115, 115, 1,
    ];
    body.write_buf(&part2);
    let symbol: [u8; 10] = [53, 53, 61, 69, 85, 82, 85, 83, 68, 1];
    body.write_buf(&symbol);
    proof {
        lemma_template_bytes();
        assert(body.written() =~= part2@ + symbol@);
    }
    proof {
        lemma_book_fields(*dom);
    }
    write_orderbook(body, dom);
    proof {
        lemma_join_concat(template_fields(), book_fields(*dom), SOH);
    }
    let body_len = body.len();
    proof {
        lemma_dec_len_usize(body_len);
    }
    header.write_usize(body_len);
    header.write_raw_u8(SOH);
    proof {
        lemma_header_bytes(body_len as nat);
        assert(header.written() =~= part1@ + dec(body_len as nat) + seq![SOH]);
    }
    assert(body.written().len() == body.idx);
    let trailer: [u8; 7] = [49, 48, 61, 53, 52, 51, 1];
    body.write_buf(&trailer);
    proof {
        lemma_trailer_bytes();
        assert(body.written() =~= message_body(*dom) + join_fields(trailer_fields(), SOH));
    }
}

} // verus!
