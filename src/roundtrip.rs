use vstd::prelude::*;
use vstd::utf8::{is_leading_byte_width_1, partial_valid_utf8, partial_valid_utf8_extend_ascii_block, valid_utf8};

use crate::book::{OrderBook, PxSz};
use crate::decimal::{all_digits, decimal_ok, digits_value, is_digit};
use crate::encode::{book_fields, lemma_join1, lemma_join3, level_fields, side_fields, Fields};
use crate::field::{
    all_well_formed, decode_fields, field_bytes, join_fields, lemma_decode_join, lemma_field_decodes,
    lemma_join_concat, well_formed,
};
use crate::header::{header_spec, prefix_spec, trailer_spec};
use crate::message::{
    body_fields, fix44, header_fields, lemma_header_bytes, lemma_template_bytes, lemma_trailer_bytes, message_body,
    template_fields, trailer_fields,
};
use crate::writer::{dec, lemma_dec_len_u32, lemma_dec_len_usize};
use crate::{SOH, TAG_DELIMETER};

verus! {

/// The digits of `n` are a non-empty digit string that spells `n`.
pub proof fn lemma_dec_digits(n: nat)
    ensures
        dec(n).len() > 0,
        all_digits(dec(n)),
        digits_value(dec(n)) == n,
    decreases n,
{
    if n >= 10 {
        lemma_dec_digits(n / 10);
        let d = dec(n);
        assert(d.drop_last() =~= dec(n / 10));
        assert(all_digits(d)) by {
            assert forall|i: int| 0 <= i < d.len() implies is_digit(#[trigger] d[i]) by {
                if i < d.len() - 1 {
                    assert(d[i] == dec(n / 10)[i]);
                }
            }
        }
        assert(d.last() == (48 + n % 10) as u8);
        assert((d.last() - 48) as nat == n % 10);
        assert(digits_value(d) == digits_value(dec(n / 10)) * 10 + n % 10);
        assert((n / 10) * 10 + n % 10 == n);
    } else {
        let d = dec(n);
        assert(d.drop_last() =~= Seq::<u8>::empty());
        assert(digits_value(Seq::<u8>::empty()) == 0);
        assert(d.last() == (48 + n) as u8);
        assert(digits_value(d) == digits_value(d.drop_last()) * 10 + (d.last() - 48) as nat);
    }
}

/// A field whose tag and value are digit strings is well formed for any
/// separator that is neither a digit nor `=`.
pub proof fn lemma_digit_field(tag: Seq<u8>, value: Seq<u8>, sep: u8)
    requires
        all_digits(tag),
        all_digits(value),
        tag.len() > 0,
        value.len() > 0,
        !is_digit(sep),
        sep != TAG_DELIMETER,
    ensures
        well_formed(tag, value, sep),
{
    assert(!tag.contains(TAG_DELIMETER)) by {
        if tag.contains(TAG_DELIMETER) {
            let j = choose|j: int| 0 <= j < tag.len() && tag[j] == TAG_DELIMETER;
            assert(is_digit(tag[j]));
        }
    }
    assert(!tag.contains(sep)) by {
        if tag.contains(sep) {
            let j = choose|j: int| 0 <= j < tag.len() && tag[j] == sep;
            assert(is_digit(tag[j]));
        }
    }
    assert(!value.contains(sep)) by {
        if value.contains(sep) {
            let j = choose|j: int| 0 <= j < value.len() && value[j] == sep;
            assert(is_digit(value[j]));
        }
    }
}

/// Integers written one after another, each as the value of a field, come
/// back out of the bytes by tokenizing, splitting and parsing, in order:
/// `decode_body`, whose result is `decode_fields`, yields each field, and
/// `parse_decimal` on each value yields the integer.
pub proof fn lemma_integers_round_trip(tags: Seq<Seq<u8>>, ns: Seq<u32>, sep: u8)
    requires
        tags.len() == ns.len(),
        forall|i: int| 0 <= i < tags.len() ==> all_digits(#[trigger] tags[i]) && tags[i].len() > 0,
        !is_digit(sep),
        sep != TAG_DELIMETER,
    ensures
        ({
            let fs = Seq::new(ns.len(), |i: int| (tags[i], dec(ns[i] as nat)));
            &&& decode_fields(join_fields(fs, sep), sep) == Some(fs)
            &&& forall|i: int|
                0 <= i < ns.len() ==> decimal_ok(#[trigger] fs[i].1) && digits_value(fs[i].1) == ns[i]
        }),
{
    let fs = Seq::new(ns.len(), |i: int| (tags[i], dec(ns[i] as nat)));
    assert forall|i: int| 0 <= i < ns.len() implies decimal_ok(#[trigger] fs[i].1) && digits_value(fs[i].1)
        == ns[i] && well_formed(fs[i].0, fs[i].1, sep) by {
        lemma_dec_digits(ns[i] as nat);
        lemma_digit_field(tags[i], fs[i].1, sep);
    }
    lemma_decode_join(fs, sep);
}

/// Bytes below 0x80 are valid UTF-8.
pub proof fn lemma_ascii_valid_utf8(s: Seq<u8>)
    requires
        forall|i: int| 0 <= i < s.len() ==> #[trigger] s[i] <= 0x7f,
    ensures
        valid_utf8(s),
{
    assert(s.subrange(0, 0) =~= Seq::<u8>::empty());
    assert(partial_valid_utf8(s, 0));
    assert forall|i: int| 0 <= 0 <= i < s.len() <= s.len() implies #[trigger] is_leading_byte_width_1(s[i]) by {}
    partial_valid_utf8_extend_ascii_block(s, 0, s.len() as int);
    assert(s.subrange(0, s.len() as int) =~= s);
}

/// Concatenated runs of well-formed fields are well formed.
pub proof fn lemma_all_well_formed_concat(a: Fields, b: Fields, sep: u8)
    requires
        all_well_formed(a, sep),
        all_well_formed(b, sep),
    ensures
        all_well_formed(a + b, sep),
{
    assert forall|i: int| 0 <= i < (a + b).len() implies well_formed(#[trigger] (a + b)[i].0, (a + b)[i].1, sep) by {
        if i < a.len() {
            assert((a + b)[i] == a[i]);
        } else {
            assert((a + b)[i] == b[i - a.len()]);
        }
    }
}

/// The fields of one side are well formed and take at most 36 bytes a level.
pub proof fn lemma_side_fields(levels: Seq<PxSz>, kind: u8)
    requires
        is_digit(kind),
    ensures
        all_well_formed(side_fields(levels, kind), SOH),
        join_fields(side_fields(levels, kind), SOH).len() <= 36 * levels.len(),
    decreases levels.len(),
{
    if levels.len() > 0 {
        let a = side_fields(levels.drop_last(), kind);
        let l = level_fields(kind, levels.last());
        lemma_side_fields(levels.drop_last(), kind);
        lemma_dec_digits(levels.last().price as nat);
        lemma_dec_digits(levels.last().size as nat);
        lemma_dec_len_u32(levels.last().price);
        lemma_dec_len_u32(levels.last().size);
        assert(all_digits(seq![kind]));
        assert(all_digits(seq![50u8, 54, 57]));
        assert(all_digits(seq![50u8, 55, 48]));
        assert(all_digits(seq![50u8, 55, 49]));
        lemma_digit_field(seq![50u8, 54, 57], seq![kind], SOH);
        lemma_digit_field(seq![50u8, 55, 48], dec(levels.last().price as nat), SOH);
        lemma_digit_field(seq![50u8, 55, 49], dec(levels.last().size as nat), SOH);
        assert(all_well_formed(l, SOH));
        lemma_all_well_formed_concat(a, l, SOH);
        lemma_join_concat(a, l, SOH);
        lemma_join3(l, SOH);
    }
}

/// The repeating group of a book is well formed and takes at most 745 bytes.
pub proof fn lemma_book_fields(dom: OrderBook)
    requires
        dom.wf(),
    ensures
        all_well_formed(book_fields(dom), SOH),
        join_fields(book_fields(dom), SOH).len() <= 745,
{
    let total = (dom.bid_num + dom.ask_num) as usize;
    let head: Fields = seq![(seq![50u8, 54, 56], dec(total as nat))];
    let b = side_fields(dom.bids@.take(dom.bid_num as int), 48);
    let a = side_fields(dom.asks@.take(dom.ask_num as int), 49);
    lemma_dec_digits(total as nat);
    lemma_dec_len_usize(total);
    assert(all_digits(seq![50u8, 54, 56]));
    lemma_digit_field(seq![50u8, 54, 56], dec(total as nat), SOH);
    lemma_side_fields(dom.bids@.take(dom.bid_num as int), 48);
    lemma_side_fields(dom.asks@.take(dom.ask_num as int), 49);
    lemma_all_well_formed_concat(head, b, SOH);
    lemma_all_well_formed_concat(head + b, a, SOH);
    lemma_join1(head, SOH);
    lemma_join_concat(head, b, SOH);
    lemma_join_concat(head + b, a, SOH);
}

/// The template fields are well formed.
pub proof fn lemma_template_well_formed()
    ensures
        all_well_formed(template_fields(), SOH),
{
    let t = template_fields();
    assert forall|i: int| 0 <= i < t.len() implies well_formed(#[trigger] t[i].0, t[i].1, SOH) by {
        let tag = t[i].0;
        let value = t[i].1;
        assert(tag.len() == 2 && is_digit(tag[0]) && is_digit(tag[1]));
        assert(forall|j: int| 0 <= j < value.len() ==> #[trigger] value[j] >= 45);
        assert(!tag.contains(TAG_DELIMETER)) by {
            if tag.contains(TAG_DELIMETER) {
                let j = choose|j: int| 0 <= j < tag.len() && tag[j] == TAG_DELIMETER;
            }
        }
        assert(!tag.contains(SOH)) by {
            if tag.contains(SOH) {
                let j = choose|j: int| 0 <= j < tag.len() && tag[j] == SOH;
            }
        }
        assert(!value.contains(SOH)) by {
            if value.contains(SOH) {
                let j = choose|j: int| 0 <= j < value.len() && value[j] == SOH;
            }
        }
    }
}

/// Facts about the body of a snapshot: short, opening with MsgType `W`, and
/// decoding to its fields.
proof fn lemma_body(dom: OrderBook)
    requires
        dom.wf(),
    ensures
        message_body(dom).len() <= 820,
        message_body(dom) == field_bytes(seq![51u8, 53], seq![87u8], SOH) + join_fields(
            body_fields(dom).drop_first(),
            SOH,
        ),
        decode_fields(message_body(dom), SOH) == Some(body_fields(dom)),
{
    let fields = body_fields(dom);
    lemma_template_well_formed();
    lemma_book_fields(dom);
    lemma_all_well_formed_concat(template_fields(), book_fields(dom), SOH);
    lemma_template_bytes();
    lemma_join_concat(template_fields(), book_fields(dom), SOH);
    lemma_decode_join(fields, SOH);
    let first: Fields = seq![fields[0]];
    assert(fields =~= first + fields.drop_first());
    lemma_join_concat(first, fields.drop_first(), SOH);
    lemma_join1(first, SOH);
    assert(fields[0] == (seq![51u8, 53], seq![87u8]));
}

/// The framer reads the header of any message whose body opens with MsgType `W`.
proof fn lemma_header_decodes(len: nat, rest: Seq<u8>)
    requires
        len <= usize::MAX,
        rest.len() >= 5,
        rest.take(5) == field_bytes(seq![51u8, 53], seq![87u8], SOH),
    ensures
        ({
            let head = join_fields(header_fields(len), SOH);
            header_spec(head + rest, SOH) == Ok::<(Seq<u8>, nat, Seq<u8>, nat), crate::error::FixError>(
                (fix44(), len, seq![87u8], head.len()),
            )
        }),
{
    let f1 = field_bytes(seq![56u8], fix44(), SOH);
    let f2 = field_bytes(seq![57u8], dec(len), SOH);
    lemma_header_bytes(len);
    let head = join_fields(header_fields(len), SOH);
    assert(head =~= f1 + f2);
    let msg = head + rest;
    lemma_dec_digits(len);
    assert(all_digits(seq![56u8]));
    assert(all_digits(seq![57u8]));
    assert(all_digits(seq![51u8, 53]));
    assert(!fix44().contains(SOH)) by {
        if fix44().contains(SOH) {
            let j = choose|j: int| 0 <= j < fix44().len() && fix44()[j] == SOH;
        }
    }
    assert(!seq![56u8].contains(TAG_DELIMETER) && !seq![56u8].contains(SOH)) by {
        lemma_digit_field(seq![56u8], dec(len), SOH);
    }
    assert(well_formed(seq![56u8], fix44(), SOH));
    lemma_digit_field(seq![57u8], dec(len), SOH);
    assert(well_formed(seq![51u8, 53], seq![87u8], SOH));

    assert(msg.skip(0) =~= f1 + (f2 + rest));
    lemma_field_decodes(seq![56u8], fix44(), SOH, f2 + rest);
    lemma_ascii_valid_utf8(fix44());

    assert(msg.skip(f1.len() as int) =~= f2 + rest);
    lemma_field_decodes(seq![57u8], dec(len), SOH, rest);
    assert(decimal_ok(dec(len)));
    assert(prefix_spec(msg, SOH) == Ok::<(Seq<u8>, nat, nat), crate::error::FixError>((fix44(), len, head.len())));

    let after = rest.skip(5);
    assert(msg.skip(head.len() as int) =~= field_bytes(seq![51u8, 53], seq![87u8], SOH) + after);
    lemma_field_decodes(seq![51u8, 53], seq![87u8], SOH, after);
    lemma_ascii_valid_utf8(seq![87u8]);
}

/// The trailer reads back as CheckSum `543`, seven bytes long.
proof fn lemma_trailer_decodes()
    ensures
        trailer_spec(join_fields(trailer_fields(), SOH), SOH) == Ok::<(Seq<u8>, nat), crate::error::FixError>(
            (seq![53u8, 52, 51], 7),
        ),
{
    let t = join_fields(trailer_fields(), SOH);
    lemma_trailer_bytes();
    assert(all_digits(seq![49u8, 48]));
    assert(all_digits(seq![53u8, 52, 51]));
    lemma_digit_field(seq![49u8, 48], seq![53u8, 52, 51], SOH);
    assert(t.skip(0) =~= field_bytes(seq![49u8, 48], seq![53u8, 52, 51], SOH) + Seq::<u8>::empty());
    lemma_field_decodes(seq![49u8, 48], seq![53u8, 52, 51], SOH, Seq::<u8>::empty());
    lemma_ascii_valid_utf8(seq![53u8, 52, 51]);
}

/// Decoding an encoded snapshot message gives back what was written: the
/// framer reads BeginString `FIX.4.4`, the body's exact length and MsgType
/// `W`, and consumes the first two fields only; the body then decodes to
/// every field written, in order; the trailer follows with CheckSum `543`.
/// These are the results of `read_standard_header`, `decode_body` and
/// `read_standard_trailer` on the bytes that `write_message` writes.
#[verifier::spinoff_prover]
#[verifier::rlimit(60)]
pub proof fn lemma_encode_decode(dom: OrderBook)
    requires
        dom.wf(),
    ensures
        ({
            let body = message_body(dom);
            let head = join_fields(header_fields(body.len()), SOH);
            let msg = head + body + join_fields(trailer_fields(), SOH);
            &&& header_spec(msg, SOH) == Ok::<(Seq<u8>, nat, Seq<u8>, nat), crate::error::FixError>(
                (fix44(), body.len(), seq![87u8], head.len()),
            )
            &&& decode_fields(msg.subrange(head.len() as int, head.len() + body.len() as int), SOH) == Some(
                body_fields(dom),
            )
            &&& trailer_spec(msg.skip(head.len() + body.len() as int), SOH) == Ok::<(Seq<u8>, nat), crate::error::FixError>(
                (seq![53u8, 52, 51], 7),
            )
        }),
{
    let body = message_body(dom);
    let len = body.len();
    let trailer = join_fields(trailer_fields(), SOH);
    let head = join_fields(header_fields(len), SOH);
    lemma_body(dom);
    let rest = body + trailer;
    assert(rest.take(5) =~= field_bytes(seq![51u8, 53], seq![87u8], SOH));
    lemma_header_decodes(len, rest);
    assert(head + body + trailer =~= head + rest);
    let msg = head + body + trailer;
    assert(msg.subrange(head.len() as int, head.len() + len as int) =~= body);
    assert(msg.skip(head.len() + len as int) =~= trailer);
    lemma_trailer_decodes();
}

} // verus!
