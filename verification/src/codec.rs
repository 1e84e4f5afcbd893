use vstd::prelude::*;

use crate::link::Link;
use crate::link::LinkModel;
use crate::store::models_of;
use crate::store::wf_models;
use crate::store::LinkStore;
use crate::render::push_bytes;

verus! {

/// A 64-bit value as eight little-endian bytes.
pub open spec fn le8(n: u64) -> Seq<u8> {
    seq![
        (n & 0xff) as u8,
        ((n >> 8) & 0xff) as u8,
        ((n >> 16) & 0xff) as u8,
        ((n >> 24) & 0xff) as u8,
        ((n >> 32) & 0xff) as u8,
        ((n >> 40) & 0xff) as u8,
        ((n >> 48) & 0xff) as u8,
        ((n >> 56) & 0xff) as u8,
    ]
}

/// A 32-bit value as four little-endian bytes.
pub open spec fn le4(n: u32) -> Seq<u8> {
    seq![
        (n & 0xff) as u8,
        ((n >> 8) & 0xff) as u8,
        ((n >> 16) & 0xff) as u8,
        ((n >> 24) & 0xff) as u8,
    ]
}

/// The 64-bit value read from eight little-endian bytes.
pub open spec fn u64_from_le(
    b0: u8,
    b1: u8,
    b2: u8,
    b3: u8,
    b4: u8,
    b5: u8,
    b6: u8,
    b7: u8,
) -> u64 {
    (b0 as u64) | (b1 as u64) << 8 | (b2 as u64) << 16 | (b3 as u64) << 24 | (b4 as u64) << 32 | (
    b5 as u64) << 40 | (b6 as u64) << 48 | (b7 as u64) << 56
}

/// The 32-bit value read from four little-endian bytes.
pub open spec fn u32_from_le(b0: u8, b1: u8, b2: u8, b3: u8) -> u32 {
    (b0 as u32) | (b1 as u32) << 8 | (b2 as u32) << 16 | (b3 as u32) << 24
}

/// A byte string with its length before it.
pub open spec fn enc_bytes(f: Seq<u8>) -> Seq<u8> {
    le8(f.len() as u64) + f
}

/// One record: the four text fields length-prefixed, then the sort key.
pub open spec fn enc_link(l: LinkModel) -> Seq<u8> {
    enc_bytes(l.name) + (enc_bytes(l.url) + (enc_bytes(l.image) + (enc_bytes(l.description)
        + le4(l.order))))
}

/// All records, one after the other.
pub open spec fn enc_links(s: Seq<LinkModel>) -> Seq<u8>
    decreases s.len(),
{
    if s.len() == 0 {
        Seq::empty()
    } else {
        enc_link(s[0]) + enc_links(s.drop_first())
    }
}

/// The durable snapshot: the record count, then each record.
pub open spec fn enc_store(s: Seq<LinkModel>) -> Seq<u8> {
    le8(s.len() as u64) + enc_links(s)
}

/// A record collection small enough to carry 64-bit length prefixes.
pub open spec fn encodable(s: Seq<LinkModel>) -> bool {
    &&& s.len() <= u64::MAX
    &&& forall|i: int|
        0 <= i < s.len() ==> (#[trigger] s[i]).name.len() <= u64::MAX && s[i].url.len()
            <= u64::MAX && s[i].image.len() <= u64::MAX && s[i].description.len() <= u64::MAX
}

/// Read a 64-bit little-endian value at `i`.
#[verifier::opaque]
pub open spec fn dec_u64(b: Seq<u8>, i: int) -> Option<(u64, int)> {
    if 0 <= i && i + 8 <= b.len() {
        Some(
            (
                u64_from_le(
                    b[i],
                    b[i + 1],
                    b[i + 2],
                    b[i + 3],
                    b[i + 4],
                    b[i + 5],
                    b[i + 6],
                    b[i + 7],
                ),
                i + 8,
            ),
        )
    } else {
        None
    }
}

/// Read a 32-bit little-endian value at `i`.
#[verifier::opaque]
pub open spec fn dec_u32(b: Seq<u8>, i: int) -> Option<(u32, int)> {
    if 0 <= i && i + 4 <= b.len() {
        Some((u32_from_le(b[i], b[i + 1], b[i + 2], b[i + 3]), i + 4))
    } else {
        None
    }
}

/// Read a length-prefixed byte string at `i`.
pub open spec fn dec_bytes(b: Seq<u8>, i: int) -> Option<(Seq<u8>, int)> {
    match dec_u64(b, i) {
        None => None,
        Some((n, j)) => if j + n <= b.len() {
            Some((b.subrange(j, j + n as int), j + n as int))
        } else {
            None
        },
    }
}

/// Read one record at `i`.
pub open spec fn dec_link(b: Seq<u8>, i: int) -> Option<(LinkModel, int)> {
    match dec_bytes(b, i) {
        None => None,
        Some((name, j1)) => match dec_bytes(b, j1) {
            None => None,
            Some((url, j2)) => match dec_bytes(b, j2) {
                None => None,
                Some((image, j3)) => match dec_bytes(b, j3) {
                    None => None,
                    Some((description, j4)) => match dec_u32(b, j4) {
                        None => None,
                        Some((order, j5)) => Some(
                            (LinkModel { name, url, image, description, order }, j5),
                        ),
                    },
                },
            },
        },
    }
}

/// Read `count` records at `i`.
pub open spec fn dec_links(b: Seq<u8>, i: int, count: nat) -> Option<(Seq<LinkModel>, int)>
    decreases count,
{
    if count == 0 {
        Some((Seq::empty(), i))
    } else {
        match dec_link(b, i) {
            None => None,
            Some((l, j)) => match dec_links(b, j, (count - 1) as nat) {
                None => None,
                Some((s, k)) => Some((seq![l] + s, k)),
            },
        }
    }
}

/// Read a whole snapshot: the count, that many records, nothing after them,
/// and a well-formed collection.
pub open spec fn dec_store(b: Seq<u8>) -> Option<Seq<LinkModel>> {
    match dec_u64(b, 0) {
        None => None,
        Some((count, i)) => match dec_links(b, i, count as nat) {
            None => None,
            Some((s, j)) => if j == b.len() && wf_models(s) {
                Some(s)
            } else {
                None
            },
        },
    }
}

/// The eight little-endian bytes of `n` read back as `n`.
proof fn lemma_le8_round_trip(n: u64)
    ensures
        u64_from_le(
            (n & 0xff) as u8,
            ((n >> 8) & 0xff) as u8,
            ((n >> 16) & 0xff) as u8,
            ((n >> 24) & 0xff) as u8,
            ((n >> 32) & 0xff) as u8,
            ((n >> 40) & 0xff) as u8,
            ((n >> 48) & 0xff) as u8,
            ((n >> 56) & 0xff) as u8,
        ) == n,
{
    assert(((n & 0xff) as u8) as u64 | ((((n >> 8) & 0xff) as u8) as u64) << 8 | ((((n >> 16)
        & 0xff) as u8) as u64) << 16 | ((((n >> 24) & 0xff) as u8) as u64) << 24 | ((((n >> 32)
        & 0xff) as u8) as u64) << 32 | ((((n >> 40) & 0xff) as u8) as u64) << 40 | ((((n >> 48)
        & 0xff) as u8) as u64) << 48 | ((((n >> 56) & 0xff) as u8) as u64) << 56 == n)
        by (bit_vector);
}

/// The four little-endian bytes of `n` read back as `n`.
proof fn lemma_le4_round_trip(n: u32)
    ensures
        u32_from_le(
            (n & 0xff) as u8,
            ((n >> 8) & 0xff) as u8,
            ((n >> 16) & 0xff) as u8,
            ((n >> 24) & 0xff) as u8,
        ) == n,
{
    assert(((n & 0xff) as u8) as u32 | ((((n >> 8) & 0xff) as u8) as u32) << 8 | ((((n >> 16)
        & 0xff) as u8) as u32) << 16 | ((((n >> 24) & 0xff) as u8) as u32) << 24 == n)
        by (bit_vector);
}

/// Reading a 64-bit value where one was written finds it.
proof fn lemma_dec_u64_frame(b: Seq<u8>, i: int, n: u64)
    requires
        0 <= i,
        i + 8 <= b.len(),
        b.subrange(i, i + 8) == le8(n),
    ensures
        dec_u64(b, i) == Some((n, i + 8)),
{
    reveal(dec_u64);
    lemma_le8_round_trip(n);
    assert forall|k: int| 0 <= k < 8 implies b[i + k] == le8(n)[k] by {
        assert(b.subrange(i, i + 8)[k] == b[i + k]);
    }
    assert(b[i] == (n & 0xff) as u8);
    assert(b[i + 1] == ((n >> 8) & 0xff) as u8);
    assert(b[i + 2] == ((n >> 16) & 0xff) as u8);
    assert(b[i + 3] == ((n >> 24) & 0xff) as u8);
    assert(b[i + 4] == ((n >> 32) & 0xff) as u8);
    assert(b[i + 5] == ((n >> 40) & 0xff) as u8);
    assert(b[i + 6] == ((n >> 48) & 0xff) as u8);
    assert(b[i + 7] == ((n >> 56) & 0xff) as u8);
}

/// Reading a 32-bit value where one was written finds it.
proof fn lemma_dec_u32_frame(b: Seq<u8>, i: int, n: u32)
    requires
        0 <= i,
        i + 4 <= b.len(),
        b.subrange(i, i + 4) == le4(n),
    ensures
        dec_u32(b, i) == Some((n, i + 4)),
{
    reveal(dec_u32);
    lemma_le4_round_trip(n);
    assert forall|k: int| 0 <= k < 4 implies b[i + k] == le4(n)[k] by {
        assert(b.subrange(i, i + 4)[k] == b[i + k]);
    }
    assert(b[i] == (n & 0xff) as u8);
    assert(b[i + 1] == ((n >> 8) & 0xff) as u8);
    assert(b[i + 2] == ((n >> 16) & 0xff) as u8);
    assert(b[i + 3] == ((n >> 24) & 0xff) as u8);
}

/// Reading a byte string where one was written finds it.
proof fn lemma_dec_bytes_frame(pre: Seq<u8>, f: Seq<u8>, rest: Seq<u8>)
    requires
        f.len() <= u64::MAX,
    ensures
        dec_bytes(pre + enc_bytes(f) + rest, pre.len() as int) == Some(
            (f, (pre.len() + 8 + f.len()) as int),
        ),
{
    let b = pre + enc_bytes(f) + rest;
    let i = pre.len() as int;
    let n = f.len() as u64;
    assert(b.subrange(i, i + 8) =~= le8(n)) by {
        assert forall|k: int| 0 <= k < 8 implies #[trigger] b.subrange(i, i + 8)[k] == le8(n)[k] by {
            assert(b.subrange(i, i + 8)[k] == b[i + k]);
            assert(b[i + k] == (pre + enc_bytes(f))[i + k]);
            assert((pre + enc_bytes(f))[i + k] == enc_bytes(f)[k]);
            assert(enc_bytes(f)[k] == le8(n)[k]);
        }
    }
    lemma_dec_u64_frame(b, i, n);
    assert(b.subrange(i + 8, i + 8 + n as int) =~= f) by {
        assert forall|k: int| 0 <= k < f.len() implies #[trigger] b.subrange(i + 8, i + 8 + n as int)[k]
            == f[k] by {
            assert(b.subrange(i + 8, i + 8 + n as int)[k] == b[i + 8 + k]);
            assert(b[i + 8 + k] == (pre + enc_bytes(f))[i + 8 + k]);
            assert((pre + enc_bytes(f))[i + 8 + k] == enc_bytes(f)[8 + k]);
            assert(enc_bytes(f)[8 + k] == f[k]);
        }
    }
}

/// Reading the name field of a written record finds it.
proof fn lemma_link_field_name(pre: Seq<u8>, l: LinkModel, rest: Seq<u8>)
    requires
        l.name.len() <= u64::MAX,
    ensures
        dec_bytes(pre + enc_link(l) + rest, pre.len() as int) == Some(
            (l.name, (pre.len() + 8 + l.name.len()) as int),
        ),
{
    let t1 = enc_bytes(l.url) + (enc_bytes(l.image) + (enc_bytes(l.description) + le4(l.order)));
    vstd::seq_lib::lemma_concat_associative(pre, enc_link(l), rest);
    vstd::seq_lib::lemma_concat_associative(enc_bytes(l.name), t1, rest);
    vstd::seq_lib::lemma_concat_associative(pre, enc_bytes(l.name), t1 + rest);
    assert(pre + enc_link(l) + rest == (pre + enc_bytes(l.name)) + (t1 + rest));
    lemma_dec_bytes_frame(pre, l.name, t1 + rest);
}

/// Reading the url field of a written record finds it.
proof fn lemma_link_field_url(pre: Seq<u8>, l: LinkModel, rest: Seq<u8>)
    requires
        l.url.len() <= u64::MAX,
    ensures
        dec_bytes(pre + enc_link(l) + rest, (pre.len() + 8 + l.name.len()) as int) == Some(
            (l.url, (pre.len() + 8 + l.name.len() + 8 + l.url.len()) as int),
        ),
{
    let p1 = pre + enc_bytes(l.name);
    let t2 = enc_bytes(l.image) + (enc_bytes(l.description) + le4(l.order));
    vstd::seq_lib::lemma_concat_associative(pre, enc_link(l), rest);
    vstd::seq_lib::lemma_concat_associative(enc_bytes(l.name), enc_bytes(l.url) + t2, rest);
    vstd::seq_lib::lemma_concat_associative(enc_bytes(l.url), t2, rest);
    vstd::seq_lib::lemma_concat_associative(pre, enc_bytes(l.name), enc_bytes(l.url) + (t2 + rest));
    vstd::seq_lib::lemma_concat_associative(p1, enc_bytes(l.url), t2 + rest);
    assert(pre + enc_link(l) + rest == (p1 + enc_bytes(l.url)) + (t2 + rest));
    lemma_dec_bytes_frame(p1, l.url, t2 + rest);
    assert(p1.len() == pre.len() + 8 + l.name.len());
}

/// Reading the image field of a written record finds it.
proof fn lemma_link_field_image(pre: Seq<u8>, l: LinkModel, rest: Seq<u8>)
    requires
        l.image.len() <= u64::MAX,
    ensures
        dec_bytes(
            pre + enc_link(l) + rest,
            (pre.len() + 8 + l.name.len() + 8 + l.url.len()) as int,
        ) == Some(
            (l.image, (pre.len() + 8 + l.name.len() + 8 + l.url.len() + 8 + l.image.len()) as int),
        ),
{
    let p1 = pre + enc_bytes(l.name);
    let p2 = p1 + enc_bytes(l.url);
    let t3 = enc_bytes(l.description) + le4(l.order);
    vstd::seq_lib::lemma_concat_associative(pre, enc_link(l), rest);
    vstd::seq_lib::lemma_concat_associative(
        enc_bytes(l.name),
        enc_bytes(l.url) + (enc_bytes(l.image) + t3),
        rest,
    );
    vstd::seq_lib::lemma_concat_associative(enc_bytes(l.url), enc_bytes(l.image) + t3, rest);
    vstd::seq_lib::lemma_concat_associative(enc_bytes(l.image), t3, rest);
    vstd::seq_lib::lemma_concat_associative(
        pre,
        enc_bytes(l.name),
        enc_bytes(l.url) + (enc_bytes(l.image) + (t3 + rest)),
    );
    vstd::seq_lib::lemma_concat_associative(p1, enc_bytes(l.url), enc_bytes(l.image) + (t3 + rest));
    vstd::seq_lib::lemma_concat_associative(p2, enc_bytes(l.image), t3 + rest);
    assert(pre + enc_link(l) + rest == (p2 + enc_bytes(l.image)) + (t3 + rest));
    lemma_dec_bytes_frame(p2, l.image, t3 + rest);
    assert(p2.len() == pre.len() + 8 + l.name.len() + 8 + l.url.len());
}

/// Reading the description field of a written record finds it.
proof fn lemma_link_field_description(pre: Seq<u8>, l: LinkModel, rest: Seq<u8>)
    requires
        l.description.len() <= u64::MAX,
    ensures
        dec_bytes(
            pre + enc_link(l) + rest,
            (pre.len() + 8 + l.name.len() + 8 + l.url.len() + 8 + l.image.len()) as int,
        ) == Some(
            (
                l.description,
                (pre.len() + 8 + l.name.len() + 8 + l.url.len() + 8 + l.image.len() + 8
                    + l.description.len()) as int,
            ),
        ),
{
    let p1 = pre + enc_bytes(l.name);
    let p2 = p1 + enc_bytes(l.url);
    let p3 = p2 + enc_bytes(l.image);
    vstd::seq_lib::lemma_concat_associative(pre, enc_link(l), rest);
    vstd::seq_lib::lemma_concat_associative(
        enc_bytes(l.name),
        enc_bytes(l.url) + (enc_bytes(l.image) + (enc_bytes(l.description) + le4(l.order))),
        rest,
    );
    vstd::seq_lib::lemma_concat_associative(
        enc_bytes(l.url),
        enc_bytes(l.image) + (enc_bytes(l.description) + le4(l.order)),
        rest,
    );
    vstd::seq_lib::lemma_concat_associative(
        enc_bytes(l.image),
        enc_bytes(l.description) + le4(l.order),
        rest,
    );
    vstd::seq_lib::lemma_concat_associative(enc_bytes(l.description), le4(l.order), rest);
    vstd::seq_lib::lemma_concat_associative(
        pre,
        enc_bytes(l.name),
        enc_bytes(l.url) + (enc_bytes(l.image) + (enc_bytes(l.description) + (le4(l.order)
            + rest))),
    );
    vstd::seq_lib::lemma_concat_associative(
        p1,
        enc_bytes(l.url),
        enc_bytes(l.image) + (enc_bytes(l.description) + (le4(l.order) + rest)),
    );
    vstd::seq_lib::lemma_concat_associative(
        p2,
        enc_bytes(l.image),
        enc_bytes(l.description) + (le4(l.order) + rest),
    );
    vstd::seq_lib::lemma_concat_associative(p3, enc_bytes(l.description), le4(l.order) + rest);
    assert(pre + enc_link(l) + rest == (p3 + enc_bytes(l.description)) + (le4(l.order) + rest));
    lemma_dec_bytes_frame(p3, l.description, le4(l.order) + rest);
    assert(p3.len() == pre.len() + 8 + l.name.len() + 8 + l.url.len() + 8 + l.image.len());
}

/// Reading the sort key of a written record finds it.
proof fn lemma_link_field_order(pre: Seq<u8>, l: LinkModel, rest: Seq<u8>)
    ensures
        dec_u32(
            pre + enc_link(l) + rest,
            (pre.len() + 8 + l.name.len() + 8 + l.url.len() + 8 + l.image.len() + 8
                + l.description.len()) as int,
        ) == Some(
            (l.order, (pre.len() + enc_link(l).len()) as int),
        ),
{
    let b = pre + enc_link(l) + rest;
    let p4 = pre + enc_bytes(l.name) + enc_bytes(l.url) + enc_bytes(l.image) + enc_bytes(
        l.description,
    );
    let j4 = p4.len() as int;
    assert(b =~= p4 + le4(l.order) + rest);
    assert(b.subrange(j4, j4 + 4) =~= le4(l.order)) by {
        assert forall|k: int| 0 <= k < 4 implies #[trigger] b.subrange(j4, j4 + 4)[k] == le4(
            l.order,
        )[k] by {
            assert(b.subrange(j4, j4 + 4)[k] == b[j4 + k]);
            assert(b[j4 + k] == (p4 + le4(l.order))[j4 + k]);
            assert((p4 + le4(l.order))[j4 + k] == le4(l.order)[k]);
        }
    }
    lemma_dec_u32_frame(b, j4, l.order);
    assert(j4 == pre.len() + 8 + l.name.len() + 8 + l.url.len() + 8 + l.image.len() + 8
        + l.description.len());
    assert(j4 + 4 == pre.len() + enc_link(l).len());
}

/// Reading a record where one was written finds it.
proof fn lemma_dec_link_frame(pre: Seq<u8>, l: LinkModel, rest: Seq<u8>)
    requires
        l.name.len() <= u64::MAX,
        l.url.len() <= u64::MAX,
        l.image.len() <= u64::MAX,
        l.description.len() <= u64::MAX,
    ensures
        dec_link(pre + enc_link(l) + rest, pre.len() as int) == Some(
            (l, (pre.len() + enc_link(l).len()) as int),
        ),
{
    lemma_link_field_name(pre, l, rest);
    lemma_link_field_url(pre, l, rest);
    lemma_link_field_image(pre, l, rest);
    lemma_link_field_description(pre, l, rest);
    lemma_link_field_order(pre, l, rest);
}

/// Reading records where `s` was written finds exactly `s`.
proof fn lemma_dec_links_frame(pre: Seq<u8>, s: Seq<LinkModel>, rest: Seq<u8>)
    requires
        encodable(s),
    ensures
        dec_links(pre + enc_links(s) + rest, pre.len() as int, s.len()) == Some(
            (s, (pre.len() + enc_links(s).len()) as int),
        ),
    decreases s.len(),
{
    let b = pre + enc_links(s) + rest;
    if s.len() == 0 {
        assert(dec_links(b, pre.len() as int, 0) == Some(
            (Seq::<LinkModel>::empty(), pre.len() as int),
        ));
        assert(s =~= Seq::<LinkModel>::empty());
    } else {
        let l = s[0];
        let tail = s.drop_first();
        assert(enc_links(s) == enc_link(l) + enc_links(tail));
        vstd::seq_lib::lemma_concat_associative(pre, enc_links(s), rest);
        vstd::seq_lib::lemma_concat_associative(enc_link(l), enc_links(tail), rest);
        vstd::seq_lib::lemma_concat_associative(pre, enc_link(l), enc_links(tail) + rest);
        assert(b == (pre + enc_link(l)) + (enc_links(tail) + rest));
        lemma_dec_link_frame(pre, l, enc_links(tail) + rest);
        let p1 = pre + enc_link(l);
        vstd::seq_lib::lemma_concat_associative(p1, enc_links(tail), rest);
        assert(b == (p1 + enc_links(tail)) + rest);
        assert(encodable(tail));
        lemma_dec_links_frame(p1, tail, rest);
        assert(dec_link(b, pre.len() as int) == Some((l, p1.len() as int)));
        assert(dec_links(b, p1.len() as int, tail.len()) == Some(
            (tail, (p1.len() + enc_links(tail).len()) as int),
        ));
        assert((s.len() - 1) as nat == tail.len());
        assert(seq![l] + tail =~= s);
        assert(p1.len() + enc_links(tail).len() == pre.len() + enc_links(s).len());
    }
}

/// Restoring an encoded snapshot yields exactly the records that were
/// encoded: same names, same field values.
pub proof fn lemma_store_round_trip(s: Seq<LinkModel>)
    requires
        wf_models(s),
        encodable(s),
    ensures
        dec_store(enc_store(s)) == Some(s),
{
    let b = enc_store(s);
    let n = s.len() as u64;
    assert(b.subrange(0, 8) =~= le8(n)) by {
        assert forall|k: int| 0 <= k < 8 implies #[trigger] b.subrange(0, 8)[k] == le8(n)[k] by {
            assert(b.subrange(0, 8)[k] == b[k]);
            assert(b[k] == le8(n)[k]);
        }
    }
    lemma_dec_u64_frame(b, 0, n);
    assert(b =~= le8(n) + enc_links(s) + Seq::<u8>::empty());
    lemma_dec_links_frame(le8(n), s, Seq::<u8>::empty());
    assert(dec_links(b, 8, s.len()) == Some((s, (8 + enc_links(s).len()) as int)));
    assert(8 + enc_links(s).len() == b.len());
}

/// Append the eight little-endian bytes of `n`.
fn push_u64_le(out: &mut Vec<u8>, n: u64)
    ensures
        final(out)@ == old(out)@ + le8(n),
{
    out.push((n & 0xff) as u8);
    out.push(((n >> 8) & 0xff) as u8);
    out.push(((n >> 16) & 0xff) as u8);
    out.push(((n >> 24) & 0xff) as u8);
    out.push(((n >> 32) & 0xff) as u8);
    out.push(((n >> 40) & 0xff) as u8);
    out.push(((n >> 48) & 0xff) as u8);
    out.push(((n >> 56) & 0xff) as u8);
    proof {
        assert(out@ =~= old(out)@ + le8(n));
    }
}

/// Append the four little-endian bytes of `n`.
fn push_u32_le(out: &mut Vec<u8>, n: u32)
    ensures
        final(out)@ == old(out)@ + le4(n),
{
    out.push((n & 0xff) as u8);
    out.push(((n >> 8) & 0xff) as u8);
    out.push(((n >> 16) & 0xff) as u8);
    out.push(((n >> 24) & 0xff) as u8);
    proof {
        assert(out@ =~= old(out)@ + le4(n));
    }
}

/// Append a length-prefixed byte string.
fn push_field(out: &mut Vec<u8>, f: &Vec<u8>)
    ensures
        final(out)@ == old(out)@ + enc_bytes(f@),
{
    push_u64_le(out, f.len() as u64);
    push_bytes(out, f.as_slice());
    proof {
        assert(out@ =~= old(out)@ + enc_bytes(f@));
    }
}

/// Append one encoded record.
fn push_link(out: &mut Vec<u8>, l: &Link)
    ensures
        final(out)@ == old(out)@ + enc_link(l@),
{
    push_field(out, &l.name);
    push_field(out, &l.url);
    push_field(out, &l.image);
    push_field(out, &l.description);
    push_u32_le(out, l.order);
    proof {
        assert(out@ =~= old(out)@ + enc_link(l@));
    }
}

/// Appending a record at the end appends its encoding at the end.
proof fn lemma_enc_links_push(s: Seq<LinkModel>, x: LinkModel)
    ensures
        enc_links(s.push(x)) == enc_links(s) + enc_link(x),
    decreases s.len(),
{
    if s.len() == 0 {
        assert(s.push(x)[0] == x);
        assert(s.push(x).drop_first() =~= Seq::<LinkModel>::empty());
        assert(enc_links(Seq::<LinkModel>::empty()) == Seq::<u8>::empty());
        assert(enc_links(s.push(x)) == enc_link(x) + Seq::<u8>::empty());
        assert(enc_links(s) == Seq::<u8>::empty());
        assert(enc_link(x) + Seq::<u8>::empty() =~= Seq::<u8>::empty() + enc_link(x));
    } else {
        assert(s.push(x).drop_first() =~= s.drop_first().push(x));
        assert(s.push(x)[0] == s[0]);
        lemma_enc_links_push(s.drop_first(), x);
        assert(enc_links(s.push(x)) == enc_link(s[0]) + (enc_links(s.drop_first()) + enc_link(x)));
        assert(enc_link(s[0]) + (enc_links(s.drop_first()) + enc_link(x)) =~= (enc_link(s[0])
            + enc_links(s.drop_first())) + enc_link(x));
    }
}

/// Encode the directory into its durable snapshot blob.
pub fn encode_store(store: &LinkStore) -> (r: Vec<u8>)
    ensures
        r@ == enc_store(store.models()),
{
    let links = store.snapshot();
    let ghost ms = models_of(links@);
    let mut out: Vec<u8> = Vec::new();
    push_u64_le(&mut out, links.len() as u64);
    proof {
        assert(ms.take(0) =~= Seq::<LinkModel>::empty());
        assert(out@ =~= le8(ms.len() as u64) + enc_links(ms.take(0)));
    }
    let n: usize = links.len();
    let mut i: usize = 0;
    while i < n
        invariant
            n == links@.len(),
            n == ms.len(),
            ms == models_of(links@),
            i <= n,
            out@ == le8(ms.len() as u64) + enc_links(ms.take(i as int)),
        decreases n - i,
    {
        push_link(&mut out, &links[i]);
        proof {
            assert(ms.take(i + 1) =~= ms.take(i as int).push(ms[i as int]));
            lemma_enc_links_push(ms.take(i as int), ms[i as int]);
            assert(out@ =~= le8(ms.len() as u64) + enc_links(ms.take(i + 1)));
        }
        i = i + 1;
    }
    proof {
        assert(ms.take(n as int) =~= ms);
    }
    out
}

/// Read a 64-bit little-endian value at `i`.
fn read_u64(b: &[u8], i: usize) -> (r: Option<(u64, usize)>)
    ensures
        match r {
            Some(p) => dec_u64(b@, i as int) == Some((p.0, p.1 as int)) && p.1 <= b@.len(),
            None => dec_u64(b@, i as int) is None,
        },
{
    proof {
        reveal(dec_u64);
    }
    if b.len() < 8 || i > b.len() - 8 {
        return None;
    }
    let n = (b[i] as u64) | (b[i + 1] as u64) << 8 | (b[i + 2] as u64) << 16 | (b[i + 3] as u64)
        << 24 | (b[i + 4] as u64) << 32 | (b[i + 5] as u64) << 40 | (b[i + 6] as u64) << 48 | (b[i
        + 7] as u64) << 56;
    Some((n, i + 8))
}

/// Read a 32-bit little-endian value at `i`.
fn read_u32(b: &[u8], i: usize) -> (r: Option<(u32, usize)>)
    ensures
        match r {
            Some(p) => dec_u32(b@, i as int) == Some((p.0, p.1 as int)) && p.1 <= b@.len(),
            None => dec_u32(b@, i as int) is None,
        },
{
    proof {
        reveal(dec_u32);
    }
    if b.len() < 4 || i > b.len() - 4 {
        return None;
    }
    let n = (b[i] as u32) | (b[i + 1] as u32) << 8 | (b[i + 2] as u32) << 16 | (b[i + 3] as u32)
        << 24;
    Some((n, i + 4))
}

/// Read a length-prefixed byte string at `i`.
fn read_field(b: &[u8], i: usize) -> (r: Option<(Vec<u8>, usize)>)
    ensures
        match r {
            Some(p) => dec_bytes(b@, i as int) == Some((p.0@, p.1 as int)),
            None => dec_bytes(b@, i as int) is None,
        },
{
    match read_u64(b, i) {
        None => None,
        Some((n, j)) => {
            if n > (b.len() - j) as u64 {
                return None;
            }
            let end: usize = j + (n as usize);
            let mut f: Vec<u8> = Vec::new();
            let mut k: usize = j;
            while k < end
                invariant
                    j <= k <= end <= b@.len(),
                    f@ == b@.subrange(j as int, k as int),
                decreases end - k,
            {
                f.push(b[k]);
                proof {
                    assert(f@ =~= b@.subrange(j as int, k + 1));
                }
                k = k + 1;
            }
            Some((f, end))
        },
    }
}

/// Read one record at `i`.
fn read_link(b: &[u8], i: usize) -> (r: Option<(Link, usize)>)
    ensures
        match r {
            Some(p) => dec_link(b@, i as int) == Some((p.0@, p.1 as int)),
            None => dec_link(b@, i as int) is None,
        },
{
    let (name, j1) = match read_field(b, i) {
        None => { return None; },
        Some(p) => p,
    };
    let (url, j2) = match read_field(b, j1) {
        None => { return None; },
        Some(p) => p,
    };
    let (image, j3) = match read_field(b, j2) {
        None => { return None; },
        Some(p) => p,
    };
    let (description, j4) = match read_field(b, j3) {
        None => { return None; },
        Some(p) => p,
    };
    let (order, j5) = match read_u32(b, j4) {
        None => { return None; },
        Some(p) => p,
    };
    Some((Link { name, url, image, description, order }, j5))
}

/// Read `count` records at `i`.
fn read_links(b: &[u8], i: usize, count: u64) -> (r: Option<(Vec<Link>, usize)>)
    ensures
        match r {
            Some(p) => dec_links(b@, i as int, count as nat) == Some(
                (models_of(p.0@), p.1 as int),
            ),
            None => dec_links(b@, i as int, count as nat) is None,
        },
    decreases count,
{
    if count == 0 {
        let v: Vec<Link> = Vec::new();
        proof {
            assert(models_of(v@) =~= Seq::<LinkModel>::empty());
        }
        Some((v, i))
    } else {
        match read_link(b, i) {
            None => None,
            Some((l, j)) => {
                let ghost lm = l@;
                match read_links(b, j, count - 1) {
                    None => None,
                    Some((mut s, k)) => {
                        let ghost sm = models_of(s@);
                        s.insert(0, l);
                        proof {
                            assert(models_of(s@) =~= seq![lm] + sm);
                        }
                        Some((s, k))
                    },
                }
            },
        }
    }
}

/// True when the records carry non-empty, pairwise distinct names.
fn check_wf(links: &Vec<Link>) -> (r: bool)
    ensures
        r == wf_models(models_of(links@)),
{
    let ghost ms = models_of(links@);
    let n: usize = links.len();
    let mut i: usize = 0;
    while i < n
        invariant
            n == links@.len(),
            n == ms.len(),
            ms == models_of(links@),
            i <= n,
            forall|x: int| 0 <= x < i ==> #[trigger] ms[x].name.len() > 0,
            forall|x: int, y: int| 0 <= x < y < n && x < i ==> ms[x].name != ms[y].name,
        decreases n - i,
    {
        if links[i].name.len() == 0 {
            proof {
                assert(ms[i as int].name.len() == 0);
                assert(!wf_models(ms));
            }
            return false;
        }
        let mut j: usize = i + 1;
        while j < n
            invariant
                n == links@.len(),
                n == ms.len(),
                ms == models_of(links@),
                i < j <= n,
                forall|y: int| i < y < j ==> ms[i as int].name != #[trigger] ms[y].name,
            decreases n - j,
        {
            if crate::store::bytes_eq(links[i].name.as_slice(), links[j].name.as_slice()) {
                proof {
                    assert(ms[i as int].name == ms[j as int].name);
                    assert(!wf_models(ms));
                }
                return false;
            }
            j = j + 1;
        }
        i = i + 1;
    }
    assert forall|x: int, y: int|
        0 <= x < ms.len() && 0 <= y < ms.len() && x != y implies #[trigger] ms[x].name
        != #[trigger] ms[y].name by {
        if x < y {
        } else {
            assert(ms[y].name != ms[x].name);
        }
    }
    true
}

/// Restore a directory from its durable snapshot blob. Returns the directory
/// exactly when the blob reads back as a well-formed record collection.
pub fn decode_store(b: &[u8]) -> (r: Option<LinkStore>)
    ensures
        match r {
            Some(st) => dec_store(b@) is Some && st.wf() && st.models() == dec_store(b@)->Some_0,
            None => dec_store(b@) is None,
        },
{
    let (count, i) = match read_u64(b, 0) {
        None => { return None; },
        Some(p) => p,
    };
    let (links, j) = match read_links(b, i, count) {
        None => { return None; },
        Some(p) => p,
    };
    if j != b.len() {
        return None;
    }
    if !check_wf(&links) {
        return None;
    }
    Some(LinkStore::from_links(links))
}

} // verus!
