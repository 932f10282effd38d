use vstd::prelude::*;

use crate::book::{OrderBook, PxSz};
use crate::field::{field_bytes, join_fields, lemma_join_concat};
use crate::writer::{dec, AsciiWriter};
use crate::SOH;

verus! {

/// A list of (tag, value) pairs.
pub type Fields = Seq<(Seq<u8>, Seq<u8>)>;

/// The three fields of one level: MDEntryType(269), MDEntryPx(270) and
/// MDEntrySize(271); `kind` is `0` for a bid and `1` for an ask.
pub open spec fn level_fields(kind: u8, l: PxSz) -> Fields {
    seq![
        (seq![50u8, 54, 57], seq![kind]),
        (seq![50u8, 55, 48], dec(l.price as nat)),
        (seq![50u8, 55, 49], dec(l.size as nat)),
    ]
}

/// The fields of a run of levels of one side.
pub open spec fn side_fields(levels: Seq<PxSz>, kind: u8) -> Fields
    decreases levels.len(),
{
    if levels.len() == 0 {
        Seq::empty()
    } else {
        side_fields(levels.drop_last(), kind) + level_fields(kind, levels.last())
    }
}

/// The repeating group of a book: NoMDEntries(268), then each bid, then each ask.
pub open spec fn book_fields(dom: OrderBook) -> Fields {
    seq![(seq![50u8, 54, 56], dec((dom.bid_num + dom.ask_num) as nat))] + side_fields(
        dom.bids@.take(dom.bid_num as int),
        48,
    ) + side_fields(dom.asks@.take(dom.ask_num as int), 49)
}

/// Three fields join to the three encodings in turn.
pub proof fn lemma_join3(f: Fields, sep: u8)
    requires
        f.len() == 3,
    ensures
        join_fields(f, sep) == field_bytes(f[0].0, f[0].1, sep) + field_bytes(f[1].0, f[1].1, sep)
            + field_bytes(f[2].0, f[2].1, sep),
{
    let f2 = f.drop_last();
    let f1 = f2.drop_last();
    assert(f1.drop_last() =~= Seq::<(Seq<u8>, Seq<u8>)>::empty());
    assert(join_fields(f1.drop_last(), sep) == Seq::<u8>::empty());
    assert(f1.last() == f[0] && f2.last() == f[1] && f.last() == f[2]);
    assert(join_fields(f1, sep) =~= field_bytes(f[0].0, f[0].1, sep));
    assert(join_fields(f2, sep) =~= field_bytes(f[0].0, f[0].1, sep) + field_bytes(f[1].0, f[1].1, sep));
    assert(join_fields(f, sep) =~= field_bytes(f[0].0, f[0].1, sep) + field_bytes(f[1].0, f[1].1, sep)
        + field_bytes(f[2].0, f[2].1, sep));
}

/// One field joins to its encoding.
pub proof fn lemma_join1(f: Fields, sep: u8)
    requires
        f.len() == 1,
    ensures
        join_fields(f, sep) == field_bytes(f[0].0, f[0].1, sep),
{
    assert(f.drop_last() =~= Seq::<(Seq<u8>, Seq<u8>)>::empty());
    assert(join_fields(f.drop_last(), sep) == Seq::<u8>::empty());
    assert(join_fields(f, sep) =~= field_bytes(f[0].0, f[0].1, sep));
}

/// Writes the three fields of one level.
fn write_level(w: &mut AsciiWriter, kind: u8, level: PxSz)
    requires
        old(w).wf(),
        old(w).has_room(join_fields(level_fields(kind, level), SOH).len()),
    ensures
        final(w).wf(),
        final(w).buf@.len() == old(w).buf@.len(),
        final(w).written() == old(w).written() + join_fields(level_fields(kind, level), SOH),
{
    proof {
        lemma_join3(level_fields(kind, level), SOH);
    }
    let entry_type: [u8; 5] = [50, 54, 57, 61, kind];
    w.write_buf(&entry_type);
    w.write_raw_u8(SOH);
    let px: [u8; 4] = [50, 55, 48, 61];
    w.write_buf(&px);
    w.write_u32(level.price);
    w.write_raw_u8(SOH);
    let sz: [u8; 4] = [50, 55, 49, 61];
    w.write_buf(&sz);
    w.write_u32(level.size);
    w.write_raw_u8(SOH);
    assert(w.written() =~= old(w).written() + join_fields(level_fields(kind, level), SOH));
}

/// The encoding of more levels of a side is no shorter.
proof fn lemma_side_len_mono(levels: Seq<PxSz>, kind: u8, i: int, n: int)
    requires
        0 <= i <= n <= levels.len(),
    ensures
        join_fields(side_fields(levels.take(i), kind), SOH).len() <= join_fields(
            side_fields(levels.take(n), kind),
            SOH,
        ).len(),
    decreases n - i,
{
    if i < n {
        lemma_side_len_mono(levels, kind, i, n - 1);
        let a = side_fields(levels.take(n - 1), kind);
        let l = level_fields(kind, levels[n - 1]);
        assert(levels.take(n).drop_last() =~= levels.take(n - 1));
        assert(side_fields(levels.take(n), kind) == a + l);
        lemma_join_concat(a, l, SOH);
    }
}

/// Writes the first `n` levels of one side.
fn write_side(w: &mut AsciiWriter, levels: &Vec<PxSz>, n: usize, kind: u8)
    requires
        old(w).wf(),
        n <= levels@.len(),
        old(w).has_room(join_fields(side_fields(levels@.take(n as int), kind), SOH).len()),
    ensures
        final(w).wf(),
        final(w).buf@.len() == old(w).buf@.len(),
        final(w).written() == old(w).written() + join_fields(side_fields(levels@.take(n as int), kind), SOH),
{
    let mut i: usize = 0;
    assert(levels@.take(0) =~= Seq::<PxSz>::empty());
    assert(old(w).written() + join_fields(Seq::<(Seq<u8>, Seq<u8>)>::empty(), SOH) =~= old(w).written());
    while i < n
        invariant
            w.wf(),
            i <= n,
            n <= levels@.len(),
            w.buf@.len() == old(w).buf@.len(),
            old(w).idx + join_fields(side_fields(levels@.take(n as int), kind), SOH).len() <= w.buf@.len(),
            w.written() == old(w).written() + join_fields(side_fields(levels@.take(i as int), kind), SOH),
        decreases n - i,
    {
        proof {
            let a = side_fields(levels@.take(i as int), kind);
            let l = level_fields(kind, levels@[i as int]);
            assert(levels@.take(i + 1).drop_last() =~= levels@.take(i as int));
            assert(side_fields(levels@.take(i + 1), kind) == a + l);
            lemma_join_concat(a, l, SOH);
            lemma_side_len_mono(levels@, kind, i + 1, n as int);
            assert(w.written().len() == w.idx);
            assert(old(w).written().len() == old(w).idx);
        }
        write_level(w, kind, levels[i]);
        proof {
            let a = side_fields(levels@.take(i as int), kind);
            let l = level_fields(kind, levels@[i as int]);
            assert(w.written() =~= old(w).written() + join_fields(side_fields(levels@.take(i + 1), kind), SOH));
        }
        i += 1;
    }
}

/// Writes the book as a repeating group: NoMDEntries(268), then per level
/// MDEntryType(269), MDEntryPx(270) and MDEntrySize(271), bids before asks.
pub fn write_orderbook(w: &mut AsciiWriter, dom: &OrderBook)
    requires
        old(w).wf(),
        dom.wf(),
        old(w).has_room(join_fields(book_fields(*dom), SOH).len()),
    ensures
        final(w).wf(),
        final(w).buf@.len() == old(w).buf@.len(),
        final(w).written() == old(w).written() + join_fields(book_fields(*dom), SOH),
{
    let ghost head: Fields = seq![(seq![50u8, 54, 56], dec((dom.bid_num + dom.ask_num) as nat))];
    proof {
        let b = side_fields(dom.bids@.take(dom.bid_num as int), 48);
        let a = side_fields(dom.asks@.take(dom.ask_num as int), 49);
        lemma_join1(head, SOH);
        lemma_join_concat(head, b, SOH);
        lemma_join_concat(head + b, a, SOH);
    }
    let count: [u8; 4] = [50, 54, 56, 61];
    w.write_buf(&count);
    let total = dom.ask_num + dom.bid_num;
    w.write_usize(total);
    w.write_raw_u8(SOH);
    proof {
        lemma_join1(head, SOH);
        assert(w.written() =~= old(w).written() + join_fields(head, SOH));
    }
    let ghost w1 = w.written();
    write_side(w, &dom.bids, dom.bid_num, 48);
    let ghost w2 = w.written();
    assert(w.written().len() == w.idx);
    assert(old(w).written().len() == old(w).idx);
    write_side(w, &dom.asks, dom.ask_num, 49);
    proof {
        let b = side_fields(dom.bids@.take(dom.bid_num as int), 48);
        let a = side_fields(dom.asks@.take(dom.ask_num as int), 49);
        lemma_join_concat(head, b, SOH);
        lemma_join_concat(head + b, a, SOH);
        assert(w.written() =~= old(w).written() + join_fields(book_fields(*dom), SOH));
    }
}

} // verus!
