use vstd::prelude::*;
use vstd::string::StringSliceAdditionalSpecFns;
use vstd::utf8::valid_utf8;

use crate::error::FixError;
use crate::TAG_DELIMETER;

verus! {

/// Index of the first `b` in `s`, or `s.len()` when there is none.
pub open spec fn sep_pos(s: Seq<u8>, b: u8) -> nat
    decreases s.len(),
{
    if s.len() == 0 {
        0
    } else if s[0] == b {
        0
    } else {
        1 + sep_pos(s.drop_first(), b)
    }
}

/// The bytes strictly before the first separator; empty when there is no
/// separator at all (an incomplete field and no field look alike).
pub open spec fn field_spec(s: Seq<u8>, sep: u8) -> Seq<u8> {
    if sep_pos(s, sep) < s.len() {
        s.take(sep_pos(s, sep) as int)
    } else {
        Seq::empty()
    }
}

/// A token splits into tag and value when it holds a `=` that is neither its
/// first byte (an empty tag) nor its last (an empty value).
pub open spec fn splits(t: Seq<u8>) -> bool {
    0 < sep_pos(t, TAG_DELIMETER) && sep_pos(t, TAG_DELIMETER) + 1 < t.len()
}

/// The tag: the bytes before the first `=`.
pub open spec fn tag_of(t: Seq<u8>) -> Seq<u8> {
    t.take(sep_pos(t, TAG_DELIMETER) as int)
}

/// The value: the bytes after the first `=`.
pub open spec fn value_of(t: Seq<u8>) -> Seq<u8> {
    t.skip(sep_pos(t, TAG_DELIMETER) + 1int)
}

/// The wire form of one field: `tag=value<sep>`.
pub open spec fn field_bytes(tag: Seq<u8>, value: Seq<u8>, sep: u8) -> Seq<u8> {
    tag + seq![TAG_DELIMETER] + value + seq![sep]
}

/// A tag and a value that encode as a field which decodes back to them.
pub open spec fn well_formed(tag: Seq<u8>, value: Seq<u8>, sep: u8) -> bool {
    &&& sep != TAG_DELIMETER
    &&& !tag.contains(TAG_DELIMETER)
    &&& !tag.contains(sep)
    &&& !value.contains(sep)
    &&& tag.len() > 0
    &&& value.len() > 0
}

/// The wire form of a sequence of fields, in order.
pub open spec fn join_fields(fs: Seq<(Seq<u8>, Seq<u8>)>, sep: u8) -> Seq<u8>
    decreases fs.len(),
{
    if fs.len() == 0 {
        Seq::empty()
    } else {
        join_fields(fs.drop_last(), sep) + field_bytes(fs.last().0, fs.last().1, sep)
    }
}

/// Every field of `fs` is well formed.
pub open spec fn all_well_formed(fs: Seq<(Seq<u8>, Seq<u8>)>, sep: u8) -> bool {
    forall|i: int| 0 <= i < fs.len() ==> well_formed(#[trigger] fs[i].0, fs[i].1, sep)
}

/// The (tag, value) pairs of a run of fields that fills `s` exactly; `None`
/// where some token does not split or the last one has no separator.
pub open spec fn decode_fields(s: Seq<u8>, sep: u8) -> Option<Seq<(Seq<u8>, Seq<u8>)>>
    decreases s.len(),
{
    if s.len() == 0 {
        Some(Seq::empty())
    } else {
        let t = field_spec(s, sep);
        if splits(t) && t.len() + 1 <= s.len() {
            match decode_fields(s.skip(t.len() + 1int), sep) {
                Some(rest) => Some(seq![(tag_of(t), value_of(t))] + rest),
                None => None,
            }
        } else {
            None
        }
    }
}

/// Joining two runs of fields is joining each.
pub proof fn lemma_join_concat(a: Seq<(Seq<u8>, Seq<u8>)>, b: Seq<(Seq<u8>, Seq<u8>)>, sep: u8)
    ensures
        join_fields(a + b, sep) == join_fields(a, sep) + join_fields(b, sep),
    decreases b.len(),
{
    if b.len() == 0 {
        assert(a + b =~= a);
    } else {
        lemma_join_concat(a, b.drop_last(), sep);
        assert((a + b).drop_last() =~= a + b.drop_last());
        assert(join_fields(a + b, sep) =~= join_fields(a, sep) + join_fields(b, sep));
    }
}

/// A run of well-formed fields decodes to exactly those fields.
pub proof fn lemma_decode_join(fs: Seq<(Seq<u8>, Seq<u8>)>, sep: u8)
    requires
        all_well_formed(fs, sep),
    ensures
        decode_fields(join_fields(fs, sep), sep) == Some(fs),
    decreases fs.len(),
{
    if fs.len() > 0 {
        let head = seq![fs[0]];
        let tail = fs.drop_first();
        assert(fs =~= head + tail);
        lemma_join_concat(head, tail, sep);
        assert(head.drop_last() =~= Seq::<(Seq<u8>, Seq<u8>)>::empty());
        let f = field_bytes(fs[0].0, fs[0].1, sep);
        assert(join_fields(head.drop_last(), sep) == Seq::<u8>::empty());
        assert(join_fields(head, sep) =~= f);
        let rest = join_fields(tail, sep);
        assert(well_formed(fs[0].0, fs[0].1, sep));
        lemma_field_decodes(fs[0].0, fs[0].1, sep, rest);
        let s = join_fields(fs, sep);
        let t = field_spec(s, sep);
        assert(t.len() + 1 == f.len());
        assert(s.skip(t.len() + 1int) =~= rest);
        assert(all_well_formed(tail, sep)) by {
            assert forall|i: int| 0 <= i < tail.len() implies well_formed(#[trigger] tail[i].0, tail[i].1, sep) by {
                assert(tail[i] == fs[i + 1]);
            }
        }
        lemma_decode_join(tail, sep);
        assert(seq![(tag_of(t), value_of(t))] + tail =~= fs);
    }
}

/// `sep_pos` is the first index that holds `b`.
pub proof fn lemma_sep_pos(s: Seq<u8>, b: u8, k: int)
    requires
        0 <= k <= s.len(),
        forall|j: int| 0 <= j < k ==> s[j] != b,
        k == s.len() || s[k] == b,
    ensures
        sep_pos(s, b) == k,
    decreases k,
{
    if k > 0 {
        assert forall|j: int| 0 <= j < k - 1 implies s.drop_first()[j] != b by {
            assert(s[j + 1] != b);
        }
        lemma_sep_pos(s.drop_first(), b, k - 1);
    }
}

/// The first `b` in `a + rest`, where `a` holds none, stands right after `a`.
pub proof fn lemma_sep_pos_concat(a: Seq<u8>, rest: Seq<u8>, b: u8)
    requires
        !a.contains(b),
        rest.len() > 0,
        rest[0] == b,
    ensures
        sep_pos(a + rest, b) == a.len(),
{
    let s = a + rest;
    assert forall|j: int| 0 <= j < a.len() implies s[j] != b by {
        if s[j] == b {
            assert(a[j] == b);
        }
    }
    lemma_sep_pos(s, b, a.len() as int);
}

/// A well-formed field at the front of a buffer is tokenized and split back
/// into its tag and value, whatever follows it.
pub proof fn lemma_field_decodes(tag: Seq<u8>, value: Seq<u8>, sep: u8, rest: Seq<u8>)
    requires
        well_formed(tag, value, sep),
    ensures
        field_spec(field_bytes(tag, value, sep) + rest, sep) == tag + seq![TAG_DELIMETER] + value,
        splits(tag + seq![TAG_DELIMETER] + value),
        tag_of(tag + seq![TAG_DELIMETER] + value) == tag,
        value_of(tag + seq![TAG_DELIMETER] + value) == value,
{
    let eq = seq![TAG_DELIMETER];
    let t = tag + eq + value;
    let b = field_bytes(tag, value, sep) + rest;
    assert(b =~= t + (seq![sep] + rest));
    assert(!t.contains(sep)) by {
        if t.contains(sep) {
            let j = choose|j: int| 0 <= j < t.len() && t[j] == sep;
            if j < tag.len() {
                assert(tag[j] == sep);
            } else if j > tag.len() {
                assert(value[j - tag.len() - 1] == sep);
            }
        }
    }
    lemma_sep_pos_concat(t, seq![sep] + rest, sep);
    assert(b.take(t.len() as int) =~= t);
    assert(t =~= tag + (eq + value));
    lemma_sep_pos_concat(tag, eq + value, TAG_DELIMETER);
    assert(t.take(tag.len() as int) =~= tag);
    assert(t.skip(tag.len() + 1int) =~= value);
}

/// Splitting the first field of a buffer and joining tag and value again with
/// `=` and the same separator gives back the bytes the field took.
pub proof fn lemma_split_rejoin(buf: Seq<u8>, sep: u8)
    requires
        splits(field_spec(buf, sep)),
    ensures
        ({
            let t = field_spec(buf, sep);
            field_bytes(tag_of(t), value_of(t), sep) == buf.take(t.len() + 1int)
        }),
{
    let t = field_spec(buf, sep);
    let p = sep_pos(t, TAG_DELIMETER) as int;
    let q = sep_pos(buf, sep) as int;
    lemma_sep_pos_bound(buf, sep);
    lemma_sep_pos_bound(t, TAG_DELIMETER);
    assert(q < buf.len());
    lemma_sep_pos_hit(buf, sep);
    lemma_sep_pos_hit(t, TAG_DELIMETER);
    assert(t.take(p) + seq![TAG_DELIMETER] + t.skip(p + 1) =~= t);
    assert(t + seq![sep] =~= buf.take(t.len() + 1int));
}

/// A buffer that is empty, that opens with the separator, or that holds no
/// separator at all has an empty first field.
pub proof fn lemma_empty_field(s: Seq<u8>, sep: u8)
    ensures
        s.len() == 0 ==> field_spec(s, sep).len() == 0,
        s.len() > 0 && s[0] == sep ==> field_spec(s, sep).len() == 0,
        !s.contains(sep) ==> field_spec(s, sep).len() == 0,
{
    lemma_sep_pos_bound(s, sep);
    lemma_sep_pos_hit(s, sep);
}

/// A token does not split when it is empty, when it holds no `=`, when its
/// first `=` is its last byte, or when it starts with `=`.
pub proof fn lemma_split_fails(t: Seq<u8>)
    ensures
        t.len() == 0 ==> !splits(t),
        !t.contains(TAG_DELIMETER) ==> !splits(t),
        t.len() > 0 && sep_pos(t, TAG_DELIMETER) == t.len() - 1 ==> !splits(t),
        t.len() > 0 && t[0] == TAG_DELIMETER ==> !splits(t),
{
    lemma_sep_pos_bound(t, TAG_DELIMETER);
    lemma_sep_pos_hit(t, TAG_DELIMETER);
}

/// `sep_pos` never passes the end.
pub proof fn lemma_sep_pos_bound(s: Seq<u8>, b: u8)
    ensures
        sep_pos(s, b) <= s.len(),
    decreases s.len(),
{
    if s.len() > 0 && s[0] != b {
        lemma_sep_pos_bound(s.drop_first(), b);
    }
}

/// Where `sep_pos` is inside `s`, it points at `b`.
pub proof fn lemma_sep_pos_hit(s: Seq<u8>, b: u8)
    ensures
        sep_pos(s, b) < s.len() ==> s[sep_pos(s, b) as int] == b,
    decreases s.len(),
{
    if s.len() > 0 && s[0] != b {
        lemma_sep_pos_hit(s.drop_first(), b);
    }
}

/// Returns the bytes of `buf` strictly before the first `field_separator`.
/// Where `buf` holds no separator the result is empty: callers tell "no data"
/// from "incomplete field" by the length of `buf`.
pub fn get_field(buf: &[u8], field_separator: u8) -> (r: &[u8])
    ensures
        r@ == field_spec(buf@, field_separator),
{
    let mut len: usize = 0;
    while len < buf.len()
        invariant
            len <= buf@.len(),
            forall|j: int| 0 <= j < len ==> buf@[j] != field_separator,
        ensures
            len <= buf@.len(),
            len == buf@.len() || buf@[len as int] == field_separator,
        decreases buf@.len() - len,
    {
        if buf[len] == field_separator {
            break;
        }
        len += 1;
    }
    proof {
        lemma_sep_pos(buf@, field_separator, len as int);
    }
    if len == buf.len() {
        vstd::slice::slice_subrange(buf, 0, 0)
    } else {
        vstd::slice::slice_subrange(buf, 0, len)
    }
}

/// Splits a token at its first `=` into tag and value. Fails on an empty
/// token, on a token without `=`, where `=` is the first byte (an empty tag)
/// and where it is the last byte (an empty value).
pub fn field_to_tag_value(buf: &[u8]) -> (r: Result<(&[u8], &[u8]), FixError>)
    ensures
        r is Ok <==> splits(buf@),
        r matches Ok((tag, value)) ==> tag@ == tag_of(buf@) && value@ == value_of(buf@),
        r matches Err(e) ==> e == FixError::MalformedField,
{
    if buf.len() == 0 {
        return Err(FixError::MalformedField);
    }
    let mut i: usize = 0;
    while i < buf.len()
        invariant
            i <= buf@.len(),
            forall|j: int| 0 <= j < i ==> buf@[j] != TAG_DELIMETER,
        ensures
            i <= buf@.len(),
            i == buf@.len() || buf@[i as int] == TAG_DELIMETER,
        decreases buf@.len() - i,
    {
        if buf[i] == TAG_DELIMETER {
            break;
        }
        i += 1;
    }
    proof {
        lemma_sep_pos(buf@, TAG_DELIMETER, i as int);
    }
    if i == 0 || i >= buf.len() - 1 {
        return Err(FixError::MalformedField);
    }
    let tag = vstd::slice::slice_subrange(buf, 0, i);
    let value = vstd::slice::slice_subrange(buf, i + 1, buf.len());
    Ok((tag, value))
}

/// The byte views of a list of borrowed (tag, value) pairs.
pub open spec fn pair_views(v: Seq<(&[u8], &[u8])>) -> Seq<(Seq<u8>, Seq<u8>)> {
    v.map_values(|p: (&[u8], &[u8])| (p.0@, p.1@))
}

/// Splits a message body into its (tag, value) pairs, in order, without
/// copying: each pair borrows from `content`. Fails with `MalformedField`
/// where a token does not split or the last field has no separator.
pub fn decode_body<'a>(content: &'a [u8], field_separator: u8) -> (r: Result<Vec<(&'a [u8], &'a [u8])>, FixError>)
    ensures
        r is Ok <==> decode_fields(content@, field_separator) is Some,
        r matches Ok(v) ==> Some(pair_views(v@)) == decode_fields(content@, field_separator),
        r matches Err(e) ==> e == FixError::MalformedField,
{
    let mut out: Vec<(&'a [u8], &'a [u8])> = Vec::new();
    let len = content.len();
    let mut start: usize = 0;
    assert(content@.skip(0) =~= content@);
    assert(pair_views(out@) + Seq::<(Seq<u8>, Seq<u8>)>::empty() =~= Seq::<(Seq<u8>, Seq<u8>)>::empty());
    while start < len
        invariant
            len == content@.len(),
            start <= len,
            decode_fields(content@, field_separator) == match decode_fields(content@.skip(start as int), field_separator) {
                Some(rest) => Some(pair_views(out@) + rest),
                None => None,
            },
        decreases len - start,
    {
        let rest = vstd::slice::slice_subrange(content, start, len);
        assert(rest@ =~= content@.skip(start as int));
        let token = get_field(rest, field_separator);
        let (tag, value) = field_to_tag_value(token)?;
        proof {
            lemma_sep_pos_bound(rest@, field_separator);
        }
        let ghost old_out = out@;
        out.push((tag, value));
        let next = start + token.len() + 1;
        assert(rest@.skip(token@.len() + 1int) =~= content@.skip(next as int));
        assert(pair_views(out@) =~= pair_views(old_out) + seq![(tag@, value@)]);
        proof {
            match decode_fields(content@.skip(next as int), field_separator) {
                Some(tail) => {
                    assert(pair_views(out@) + tail =~= pair_views(old_out) + (seq![(tag@, value@)] + tail));
                },
                None => {},
            }
        }
        start = next;
    }
    assert(content@.skip(start as int) =~= Seq::<u8>::empty());
    assert(pair_views(out@) + Seq::<(Seq<u8>, Seq<u8>)>::empty() =~= pair_views(out@));
    Ok(out)
}

/// Relies on std::str::from_utf8: it succeeds exactly on valid UTF-8, and the
/// string it returns has the given bytes.
#[verifier::external_body]
fn str_from_utf8(b: &[u8]) -> (r: Option<&str>)
    ensures
        r is Some <==> valid_utf8(b@),
        r matches Some(s) ==> s.spec_bytes() == b@,
{
    std::str::from_utf8(b).ok()
}

/// Text of `bytes`, or `Encoding` where they are not valid UTF-8.
pub fn bytes_to_str(bytes: &[u8]) -> (r: Result<&str, FixError>)
    ensures
        r is Ok <==> valid_utf8(bytes@),
        r matches Ok(s) ==> s.spec_bytes() == bytes@,
        r matches Err(e) ==> e == FixError::Encoding,
{
    match str_from_utf8(bytes) {
        Some(s) => Ok(s),
        None => Err(FixError::Encoding),
    }
}

/// The field before the first separator, as text.
pub fn get_field_as_string(buf: &[u8], field_separator: u8) -> (r: Result<&str, FixError>)
    ensures
        r is Ok <==> valid_utf8(field_spec(buf@, field_separator)),
        r matches Ok(s) ==> s.spec_bytes() == field_spec(buf@, field_separator),
        r matches Err(e) ==> e == FixError::Encoding,
{
    let f = get_field(buf, field_separator);
    bytes_to_str(f)
}

} // verus!
