use vstd::prelude::*;

verus! {

/// Decimal ASCII digits of `n`, most significant first, without leading zeros.
pub open spec fn dec(n: nat) -> Seq<u8>
    decreases n,
{
    if n < 10 {
        seq![(48 + n) as u8]
    } else {
        dec(n / 10).push((48 + n % 10) as u8)
    }
}

/// The same digits, least significant first: the order they are produced in.
pub open spec fn dec_rev(n: nat) -> Seq<u8>
    decreases n,
{
    if n < 10 {
        seq![(48 + n) as u8]
    } else {
        seq![(48 + n % 10) as u8] + dec_rev(n / 10)
    }
}

/// Ten to the power `k`.
pub open spec fn pow10(k: nat) -> nat
    decreases k,
{
    if k == 0 {
        1
    } else {
        10 * pow10((k - 1) as nat)
    }
}

/// `dec_rev` is `dec` read backwards.
pub proof fn lemma_dec_rev(n: nat)
    ensures
        dec_rev(n).len() == dec(n).len(),
        forall|i: int| 0 <= i < dec(n).len() ==> #[trigger] dec(n)[i] == dec_rev(n)[dec(n).len() - 1 - i],
    decreases n,
{
    if n >= 10 {
        lemma_dec_rev(n / 10);
    }
}

/// A number below `10^k` has at most `k` digits.
pub proof fn lemma_dec_len(n: nat, k: nat)
    requires
        k >= 1,
        n < pow10(k),
    ensures
        dec(n).len() <= k,
    decreases k,
{
    if n >= 10 {
        let p = pow10((k - 1) as nat);
        if k == 1 {
            assert(pow10(1) == 10) by {
                reveal_with_fuel(pow10, 2);
            }
        } else {
            assert(n / 10 < p) by (nonlinear_arith)
                requires
                    n < 10 * p,
            ;
            lemma_dec_len(n / 10, (k - 1) as nat);
        }
    }
}

/// A `u32` has at most ten digits.
pub proof fn lemma_dec_len_u32(n: u32)
    ensures
        dec(n as nat).len() <= 10,
{
    assert(pow10(10) == 10000000000) by {
        reveal_with_fuel(pow10, 11);
    }
    lemma_dec_len(n as nat, 10);
}

/// A `usize` has at most twenty digits.
pub proof fn lemma_dec_len_usize(n: usize)
    ensures
        dec(n as nat).len() <= 20,
{
    assert(pow10(20) == 100000000000000000000) by {
        reveal_with_fuel(pow10, 21);
    }
    lemma_dec_len(n as nat, 20);
}

/// Writes ASCII into a buffer that the caller sized in advance; it never grows.
/// The bytes written so far are `buf[..idx]`; what lies beyond is stale.
#[derive(Debug)]
pub struct AsciiWriter {
    /// The buffer to write into.
    pub buf: Vec<u8>,
    /// The write cursor: how many bytes have been written.
    pub idx: usize,
}

impl AsciiWriter {
    /// The cursor lies within the buffer.
    pub open spec fn wf(&self) -> bool {
        self.idx <= self.buf@.len()
    }

    /// The bytes written since the last `clear`.
    pub open spec fn written(&self) -> Seq<u8> {
        self.buf@.take(self.idx as int)
    }

    /// Room for `n` more bytes.
    pub open spec fn has_room(&self, n: nat) -> bool {
        self.idx + n <= self.buf@.len()
    }

    /// A writer at the start of `buf`, which must be large enough for every
    /// message it will hold.
    pub fn new(buf: Vec<u8>) -> (r: AsciiWriter)
        ensures
            r.wf(),
            r.buf@ == buf@,
            r.written().len() == 0,
    {
        AsciiWriter { buf, idx: 0 }
    }

    /// The number of bytes written.
    pub fn len(&self) -> (r: usize)
        ensures
            r == self.idx,
    {
        self.idx
    }

    /// Forgets what was written; the buffer keeps its bytes and its size.
    pub fn clear(&mut self)
        ensures
            final(self).wf(),
            final(self).written().len() == 0,
            final(self).buf@ == old(self).buf@,
    {
        self.idx = 0;
    }

    /// Appends one byte.
    pub fn write_raw_u8(&mut self, v: u8)
        requires
            old(self).wf(),
            old(self).has_room(1),
        ensures
            final(self).wf(),
            final(self).buf@.len() == old(self).buf@.len(),
            final(self).written() == old(self).written().push(v),
            final(self).idx == old(self).idx + 1,
            final(self).buf@.skip(final(self).idx as int) == old(self).buf@.skip(final(self).idx as int),
    {
        let cap = self.buf.len();
        self.buf[self.idx] = v;
        self.idx += 1;
        assert(self.written() =~= old(self).written().push(v));
        assert(self.buf@.skip(self.idx as int) =~= old(self).buf@.skip(self.idx as int));
    }

    /// Reverses `buf[from..idx]` in place.
    fn reverse_tail(&mut self, from: usize)
        requires
            old(self).wf(),
            from < old(self).idx,
        ensures
            final(self).idx == old(self).idx,
            final(self).buf@.len() == old(self).buf@.len(),
            forall|k: int| 0 <= k < from ==> final(self).buf@[k] == old(self).buf@[k],
            forall|k: int| old(self).idx <= k < old(self).buf@.len() ==> final(self).buf@[k] == old(self).buf@[k],
            forall|k: int|
                from <= k < old(self).idx ==> #[trigger] final(self).buf@[k] == old(self).buf@[from + old(self).idx - 1 - k],
    {
        let ghost b0 = self.buf@;
        let ghost end = self.idx as int;
        let mut i: usize = from;
        let mut j: usize = self.idx - 1;
        while i < j
            invariant
                self.idx == end,
                self.buf@.len() == b0.len(),
                end <= b0.len(),
                from <= i,
                i + j == from + end - 1,
                j < end,
                forall|k: int| 0 <= k < from ==> self.buf@[k] == b0[k],
                forall|k: int| end <= k < b0.len() ==> self.buf@[k] == b0[k],
                forall|k: int|
                    from <= k < end ==> #[trigger] self.buf@[k] == if k < i || k > j {
                        b0[from + end - 1 - k]
                    } else {
                        b0[k]
                    },
            decreases end - i,
        {
            let a = self.buf[i];
            let b = self.buf[j];
            self.buf[i] = b;
            self.buf[j] = a;
            i += 1;
            j -= 1;
        }
    }

    /// Writes `value` in decimal: digits least significant first, then the
    /// span reversed in place.
    fn write_decimal(&mut self, value: usize)
        requires
            old(self).wf(),
            old(self).has_room(dec(value as nat).len()),
        ensures
            final(self).wf(),
            final(self).buf@.len() == old(self).buf@.len(),
            final(self).written() == old(self).written() + dec(value as nat),
            final(self).idx == old(self).idx + dec(value as nat).len(),
            final(self).buf@.skip(final(self).idx as int) == old(self).buf@.skip(final(self).idx as int),
    {
        proof {
            lemma_dec_rev(value as nat);
        }
        let ghost b0 = self.buf@;
        let start = self.idx;
        let cap = self.buf.len();
        let mut v: usize = value;
        loop
            invariant_except_break
                v > 0 || self.idx == start,
                self.buf@.subrange(start as int, self.idx as int) + dec_rev(v as nat) == dec_rev(value as nat),
            invariant
                start <= self.idx <= self.buf@.len(),
                self.buf@.len() == b0.len(),
                cap == b0.len(),
                start + dec_rev(value as nat).len() <= b0.len(),
                forall|k: int| 0 <= k < start ==> self.buf@[k] == b0[k],
                forall|k: int| self.idx <= k < b0.len() ==> self.buf@[k] == b0[k],
            ensures
                self.buf@.subrange(start as int, self.idx as int) == dec_rev(value as nat),
            decreases v,
        {
            let d = v % 10;
            let ghost before = self.buf@.subrange(start as int, self.idx as int);
            assert(dec_rev(v as nat) =~= if v < 10 {
                seq![(48 + d) as u8]
            } else {
                seq![(48 + d) as u8] + dec_rev((v / 10) as nat)
            });
            assert(self.idx < self.buf@.len()) by {
                assert((before + dec_rev(v as nat)).len() == dec_rev(value as nat).len());
            }
            self.buf[self.idx] = 48 + d as u8;
            self.idx += 1;
            assert(self.buf@.subrange(start as int, self.idx as int) =~= before.push((48 + d) as u8));
            v = v / 10;
            if v == 0 {
                assert(before.push((48 + d) as u8) =~= before + dec_rev((v * 10 + d) as nat));
                break;
            }
            assert(before.push((48 + d) as u8) + dec_rev(v as nat) =~= before + (seq![(48 + d) as u8] + dec_rev(v as nat)));
        }
        let ghost b1 = self.buf@;
        self.reverse_tail(start);
        assert(self.written() =~= b0.take(start as int) + dec(value as nat)) by {
            let n = dec(value as nat).len();
            assert forall|k: int| start <= k < self.idx implies self.buf@[k] == dec(value as nat)[k - start] by {
                assert(self.buf@[k] == b1[start + self.idx - 1 - k]);
                assert(b1.subrange(start as int, self.idx as int)[self.idx - 1 - k] == b1[start + self.idx - 1 - k]);
            }
        }
        assert(old(self).written() =~= b0.take(start as int));
        assert(self.buf@.skip(self.idx as int) =~= b0.skip(self.idx as int));
    }

    /// Writes a `u32` in decimal ASCII (at most ten digits); needs room for
    /// its digits.
    pub fn write_u32(&mut self, value: u32)
        requires
            old(self).wf(),
            old(self).has_room(dec(value as nat).len()),
        ensures
            final(self).wf(),
            final(self).buf@.len() == old(self).buf@.len(),
            final(self).written() == old(self).written() + dec(value as nat),
            final(self).idx == old(self).idx + dec(value as nat).len(),
            final(self).buf@.skip(final(self).idx as int) == old(self).buf@.skip(final(self).idx as int),
    {
        self.write_decimal(value as usize);
    }

    /// Writes a `usize` in decimal ASCII (at most twenty digits); needs room
    /// for its digits.
    pub fn write_usize(&mut self, value: usize)
        requires
            old(self).wf(),
            old(self).has_room(dec(value as nat).len()),
        ensures
            final(self).wf(),
            final(self).buf@.len() == old(self).buf@.len(),
            final(self).written() == old(self).written() + dec(value as nat),
            final(self).idx == old(self).idx + dec(value as nat).len(),
            final(self).buf@.skip(final(self).idx as int) == old(self).buf@.skip(final(self).idx as int),
    {
        self.write_decimal(value);
    }

    /// Appends a byte slice as it is.
    pub fn write_buf(&mut self, value: &[u8])
        requires
            old(self).wf(),
            old(self).has_room(value@.len()),
        ensures
            final(self).wf(),
            final(self).buf@.len() == old(self).buf@.len(),
            final(self).written() == old(self).written() + value@,
            final(self).idx == old(self).idx + value@.len(),
            final(self).buf@.skip(final(self).idx as int) == old(self).buf@.skip(final(self).idx as int),
    {
        let ghost start = self.idx as int;
        let len = value.len();
        let cap = self.buf.len();
        let mut k: usize = 0;
        while k < len
            invariant
                len == value@.len(),
                k <= len,
                self.idx == start + k,
                start + len <= self.buf@.len(),
                self.buf@.len() == old(self).buf@.len(),
                cap == self.buf@.len(),
                self.written() == old(self).written() + value@.take(k as int),
                self.buf@.skip(self.idx as int) == old(self).buf@.skip(self.idx as int),
            decreases len - k,
        {
            let ghost w0 = self.written();
            let ghost bb = self.buf@;
            let ghost i0 = self.idx as int;
            self.buf[self.idx] = value[k];
            self.idx += 1;
            assert(self.written() =~= w0.push(value@[k as int]));
            assert(value@.take(k + 1) =~= value@.take(k as int).push(value@[k as int]));
            assert forall|j: int| 0 <= j < self.buf@.len() - self.idx implies self.buf@.skip(self.idx as int)[j]
                == old(self).buf@.skip(self.idx as int)[j] by {
                assert(bb.skip(i0)[j + 1] == old(self).buf@.skip(i0)[j + 1]);
            }
            assert(self.buf@.skip(self.idx as int) =~= old(self).buf@.skip(self.idx as int));
            k += 1;
        }
        assert(value@.take(len as int) =~= value@);
    }
}

} // verus!
