//! The byte encodings in which values travel between the parties.
//!
//! Integers are little-endian and of fixed width. A vector is its length as
//! a 64-bit integer, then its entries. A request id is the length 16, then
//! its sixteen bytes, the most significant first. A structure is its fields
//! in their order.

use vstd::prelude::*;
use vstd::bytes::{
    lemma_auto_spec_u128_to_from_le_bytes,
    lemma_auto_spec_u16_to_from_le_bytes,
    lemma_auto_spec_u32_to_from_le_bytes,
    lemma_auto_spec_u64_to_from_le_bytes,
    spec_u128_from_le_bytes,
    spec_u128_to_le_bytes,
    spec_u16_from_le_bytes,
    spec_u16_to_le_bytes,
    spec_u32_from_le_bytes,
    spec_u32_to_le_bytes,
    spec_u64_from_le_bytes,
    spec_u64_to_le_bytes,
    u128_from_le_bytes,
    u128_to_le_bytes,
    u16_from_le_bytes,
    u16_to_le_bytes,
    u32_from_le_bytes,
    u32_to_le_bytes,
    u64_from_le_bytes,
    u64_to_le_bytes,
};
use vstd::slice::slice_subrange;
use crate::error::Error;
use crate::flpcp::{ProofSeed, ProofView, Proofu64, QueryRes};
use crate::hpke::HPKEOut;
use crate::payload::{InnerCiphertexts, Payload, PayloadSeed};

verus! {

/// Whether the bytes `e` stand in `s` from the position `pos` on.
pub open spec fn starts_with(s: Seq<u8>, pos: int, e: Seq<u8>) -> bool {
    0 <= pos && pos + e.len() <= s.len() && s.subrange(pos, pos + e.len()) == e
}

/// Two encodings in a row stand at a position exactly where the first
/// stands there and the second stands behind it.
pub proof fn lemma_starts_with_concat(s: Seq<u8>, pos: int, a: Seq<u8>, b: Seq<u8>)
    ensures
        starts_with(s, pos, a + b) <==> (starts_with(s, pos, a) && starts_with(
            s,
            pos + a.len(),
            b,
        )),
{
    if starts_with(s, pos, a + b) {
        assert(s.subrange(pos, pos + a.len()) =~= (a + b).subrange(0, a.len() as int));
        assert((a + b).subrange(0, a.len() as int) =~= a);
        assert(s.subrange(pos + a.len(), pos + a.len() + b.len()) =~= (a + b).subrange(
            a.len() as int,
            (a + b).len() as int,
        ));
        assert((a + b).subrange(a.len() as int, (a + b).len() as int) =~= b);
    }
    if starts_with(s, pos, a) && starts_with(s, pos + a.len(), b) {
        assert(s.subrange(pos, pos + a.len() + b.len()) =~= s.subrange(pos, pos + a.len())
            + s.subrange(pos + a.len(), pos + a.len() + b.len()));
    }
}

/// What stands at the start of a sequence and is as long as it is the
/// sequence.
pub proof fn lemma_starts_with_whole(s: Seq<u8>, e: Seq<u8>)
    ensures
        (starts_with(s, 0, e) && e.len() == s.len()) <==> s == e,
{
    assert(s.subrange(0, s.len() as int) =~= s);
}

/// The encoding of a 16-bit integer.
pub open spec fn enc_u16(x: u16) -> Seq<u8> {
    spec_u16_to_le_bytes(x)
}

/// The encoding of a 32-bit integer.
pub open spec fn enc_u32(x: u32) -> Seq<u8> {
    spec_u32_to_le_bytes(x)
}

/// The encoding of a 64-bit integer.
pub open spec fn enc_u64(x: u64) -> Seq<u8> {
    spec_u64_to_le_bytes(x)
}

/// The sixteen bytes of a request id, the most significant first.
pub open spec fn id_bytes(u: u128) -> Seq<u8> {
    Seq::new(16, |i: int| spec_u128_to_le_bytes(u)[15 - i])
}

/// The encoding of a request id.
pub open spec fn enc_uuid(u: u128) -> Seq<u8> {
    enc_u64(16) + id_bytes(u)
}

/// The encodings of the entries of `v`, in a row.
pub open spec fn enc_entries(v: Seq<u64>) -> Seq<u8>
    decreases v.len(),
{
    if v.len() == 0 {
        Seq::empty()
    } else {
        enc_entries(v.drop_last()) + enc_u64(v.last())
    }
}

/// The encoding of a vector of 64-bit integers.
pub open spec fn enc_u64s(v: Seq<u64>) -> Seq<u8> {
    enc_u64(v.len() as u64) + enc_entries(v)
}

/// The encoding of a vector of bytes.
pub open spec fn enc_bytes(b: Seq<u8>) -> Seq<u8> {
    enc_u64(b.len() as u64) + b
}

/// The encoded entries take eight bytes each, and entry `i` stands at the
/// position `8 * i`.
pub proof fn lemma_enc_entries(v: Seq<u64>)
    ensures
        enc_entries(v).len() == 8 * v.len(),
        forall|i: int| 0 <= i < v.len() ==> starts_with(enc_entries(v), 8 * i, #[trigger] enc_u64(v[i])),
    decreases v.len(),
{
    lemma_auto_spec_u64_to_from_le_bytes();
    if v.len() > 0 {
        lemma_enc_entries(v.drop_last());
        let head = enc_entries(v.drop_last());
        let tail = enc_u64(v.last());
        assert forall|i: int| 0 <= i < v.len() implies starts_with(
            enc_entries(v),
            8 * i,
            #[trigger] enc_u64(v[i]),
        ) by {
            if i < v.len() - 1 {
                assert(v.drop_last()[i] == v[i]);
                assert(starts_with(head, 8 * i, enc_u64(v[i])));
                assert((head + tail).subrange(8 * i, 8 * i + 8) =~= head.subrange(8 * i, 8 * i + 8));
            } else {
                assert((head + tail).subrange(8 * i, 8 * i + 8) =~= tail);
            }
        }
    }
}

/// Equal encodings come from equal 64-bit integers.
pub proof fn lemma_enc_u64_unique(x: u64, y: u64)
    requires
        enc_u64(x) == enc_u64(y),
    ensures
        x == y,
{
    lemma_auto_spec_u64_to_from_le_bytes();
    assert(spec_u64_from_le_bytes(enc_u64(x)) == x);
    assert(spec_u64_from_le_bytes(enc_u64(y)) == y);
}

/// Equal encodings of entries come from equal vectors of the same length.
pub proof fn lemma_enc_entries_unique(v: Seq<u64>, w: Seq<u64>)
    requires
        v.len() == w.len(),
        enc_entries(v) == enc_entries(w),
    ensures
        v == w,
{
    lemma_enc_entries(v);
    lemma_enc_entries(w);
    lemma_auto_spec_u64_to_from_le_bytes();
    assert forall|i: int| 0 <= i < v.len() implies v[i] == w[i] by {
        assert(starts_with(enc_entries(v), 8 * i, enc_u64(v[i])));
        assert(starts_with(enc_entries(w), 8 * i, enc_u64(w[i])));
        lemma_enc_u64_unique(v[i], w[i]);
    }
    assert(v =~= w);
}

/// Equal bytes come from equal request ids.
pub proof fn lemma_id_bytes_unique(u: u128, w: u128)
    requires
        id_bytes(u) == id_bytes(w),
    ensures
        u == w,
{
    lemma_auto_spec_u128_to_from_le_bytes();
    let a = spec_u128_to_le_bytes(u);
    let b = spec_u128_to_le_bytes(w);
    assert forall|i: int| 0 <= i < 16 implies a[i] == b[i] by {
        assert(id_bytes(u)[15 - i] == a[i]);
        assert(id_bytes(w)[15 - i] == b[i]);
    }
    assert(a =~= b);
    assert(spec_u128_from_le_bytes(a) == u);
    assert(spec_u128_from_le_bytes(b) == w);
}

/// At one position stands the encoding of at most one 16-bit integer.
pub proof fn lemma_u16_at(s: Seq<u8>, pos: int, x: u16, y: u16)
    requires
        starts_with(s, pos, enc_u16(x)),
        starts_with(s, pos, enc_u16(y)),
    ensures
        x == y,
{
    lemma_auto_spec_u16_to_from_le_bytes();
    assert(spec_u16_from_le_bytes(enc_u16(x)) == x);
    assert(spec_u16_from_le_bytes(enc_u16(y)) == y);
}

/// At one position stands the encoding of at most one 32-bit integer.
pub proof fn lemma_u32_at(s: Seq<u8>, pos: int, x: u32, y: u32)
    requires
        starts_with(s, pos, enc_u32(x)),
        starts_with(s, pos, enc_u32(y)),
    ensures
        x == y,
{
    lemma_auto_spec_u32_to_from_le_bytes();
    assert(spec_u32_from_le_bytes(enc_u32(x)) == x);
    assert(spec_u32_from_le_bytes(enc_u32(y)) == y);
}

/// At one position stands the encoding of at most one 64-bit integer.
pub proof fn lemma_u64_at(s: Seq<u8>, pos: int, x: u64, y: u64)
    requires
        starts_with(s, pos, enc_u64(x)),
        starts_with(s, pos, enc_u64(y)),
    ensures
        x == y,
{
    lemma_auto_spec_u64_to_from_le_bytes();
    lemma_enc_u64_unique(x, y);
}

/// At one position stands the encoding of at most one request id.
pub proof fn lemma_uuid_at(s: Seq<u8>, pos: int, u: u128, w: u128)
    requires
        starts_with(s, pos, enc_uuid(u)),
        starts_with(s, pos, enc_uuid(w)),
    ensures
        u == w,
{
    lemma_auto_spec_u64_to_from_le_bytes();
    lemma_starts_with_concat(s, pos, enc_u64(16), id_bytes(u));
    lemma_starts_with_concat(s, pos, enc_u64(16), id_bytes(w));
    lemma_id_bytes_unique(u, w);
}

/// At one position stands the encoding of at most one vector of 64-bit
/// integers.
pub proof fn lemma_u64s_at(s: Seq<u8>, pos: int, v: Seq<u64>, w: Seq<u64>)
    requires
        v.len() <= u64::MAX,
        w.len() <= u64::MAX,
        starts_with(s, pos, enc_u64s(v)),
        starts_with(s, pos, enc_u64s(w)),
    ensures
        v == w,
{
    lemma_auto_spec_u64_to_from_le_bytes();
    lemma_starts_with_concat(s, pos, enc_u64(v.len() as u64), enc_entries(v));
    lemma_starts_with_concat(s, pos, enc_u64(w.len() as u64), enc_entries(w));
    lemma_u64_at(s, pos, v.len() as u64, w.len() as u64);
    lemma_enc_entries(v);
    lemma_enc_entries(w);
    lemma_enc_entries_unique(v, w);
}

/// At one position stands the encoding of at most one vector of bytes.
pub proof fn lemma_bytes_at(s: Seq<u8>, pos: int, v: Seq<u8>, w: Seq<u8>)
    requires
        v.len() <= u64::MAX,
        w.len() <= u64::MAX,
        starts_with(s, pos, enc_bytes(v)),
        starts_with(s, pos, enc_bytes(w)),
    ensures
        v == w,
{
    lemma_auto_spec_u64_to_from_le_bytes();
    lemma_starts_with_concat(s, pos, enc_u64(v.len() as u64), v);
    lemma_starts_with_concat(s, pos, enc_u64(w.len() as u64), w);
    lemma_u64_at(s, pos, v.len() as u64, w.len() as u64);
}

/// Appends the encoding of a 16-bit integer.
pub fn put_u16(out: &mut Vec<u8>, x: u16)
    ensures
        final(out)@ == old(out)@ + enc_u16(x),
{
    let mut b = u16_to_le_bytes(x);
    out.append(&mut b);
}

/// Appends the encoding of a 32-bit integer.
pub fn put_u32(out: &mut Vec<u8>, x: u32)
    ensures
        final(out)@ == old(out)@ + enc_u32(x),
{
    let mut b = u32_to_le_bytes(x);
    out.append(&mut b);
}

/// Appends the encoding of a 64-bit integer.
pub fn put_u64(out: &mut Vec<u8>, x: u64)
    ensures
        final(out)@ == old(out)@ + enc_u64(x),
{
    let mut b = u64_to_le_bytes(x);
    out.append(&mut b);
}

/// Appends the encoding of a request id.
pub fn put_uuid(out: &mut Vec<u8>, u: u128)
    ensures
        final(out)@ == old(out)@ + enc_uuid(u),
{
    put_u64(out, 16);
    let le = u128_to_le_bytes(u);
    proof {
        lemma_auto_spec_u128_to_from_le_bytes();
    }
    let ghost start = out@;
    let mut i: usize = 0;
    while i < 16
        invariant
            i <= 16,
            le@ == spec_u128_to_le_bytes(u),
            le@.len() == 16,
            out@ == start + id_bytes(u).take(i as int),
        decreases 16 - i,
    {
        out.push(le[15 - i]);
        proof {
            assert(out@ =~= start + id_bytes(u).take(i + 1));
        }
        i += 1;
    }
    proof {
        assert(id_bytes(u).take(16) =~= id_bytes(u));
        assert(out@ =~= old(out)@ + enc_uuid(u));
    }
}

/// Appends the encoding of a vector of 64-bit integers.
pub fn put_u64s(out: &mut Vec<u8>, v: &Vec<u64>)
    ensures
        final(out)@ == old(out)@ + enc_u64s(v@),
{
    put_u64(out, v.len() as u64);
    let ghost start = out@;
    let mut i: usize = 0;
    proof {
        assert(v@.take(0) =~= Seq::<u64>::empty());
        assert(out@ =~= start + enc_entries(v@.take(0)));
    }
    while i < v.len()
        invariant
            i <= v@.len(),
            out@ == start + enc_entries(v@.take(i as int)),
        decreases v@.len() - i,
    {
        put_u64(out, v[i]);
        proof {
            assert(v@.take(i + 1).drop_last() =~= v@.take(i as int));
            assert(out@ =~= start + enc_entries(v@.take(i + 1)));
        }
        i += 1;
    }
    proof {
        assert(v@.take(v@.len() as int) =~= v@);
        assert(out@ =~= old(out)@ + enc_u64s(v@));
    }
}

/// Appends the encoding of a vector of bytes.
pub fn put_bytes(out: &mut Vec<u8>, b: &Vec<u8>)
    ensures
        final(out)@ == old(out)@ + enc_bytes(b@),
{
    put_u64(out, b.len() as u64);
    let ghost start = out@;
    let mut i: usize = 0;
    proof {
        assert(out@ =~= start + b@.take(0));
    }
    while i < b.len()
        invariant
            i <= b@.len(),
            out@ == start + b@.take(i as int),
        decreases b@.len() - i,
    {
        out.push(b[i]);
        proof {
            assert(out@ =~= start + b@.take(i + 1));
        }
        i += 1;
    }
    proof {
        assert(b@.take(b@.len() as int) =~= b@);
        assert(out@ =~= old(out)@ + enc_bytes(b@));
    }
}

/// The 16-bit integer whose encoding stands at `pos`.
pub fn get_u16(bytes: &[u8], pos: usize) -> (res: Option<u16>)
    requires
        pos <= bytes@.len(),
    ensures
        match res {
            Some(v) => starts_with(bytes@, pos as int, enc_u16(v)),
            None => pos + 2 > bytes@.len(),
        },
{
    if bytes.len() - pos < 2 {
        return None;
    }
    let v: u16 = u16_from_le_bytes(slice_subrange(bytes, pos, pos + 2));
    proof {
        lemma_auto_spec_u16_to_from_le_bytes();
    }
    Some(v)
}

/// The 32-bit integer whose encoding stands at `pos`.
pub fn get_u32(bytes: &[u8], pos: usize) -> (res: Option<u32>)
    requires
        pos <= bytes@.len(),
    ensures
        match res {
            Some(v) => starts_with(bytes@, pos as int, enc_u32(v)),
            None => pos + 4 > bytes@.len(),
        },
{
    if bytes.len() - pos < 4 {
        return None;
    }
    let v: u32 = u32_from_le_bytes(slice_subrange(bytes, pos, pos + 4));
    proof {
        lemma_auto_spec_u32_to_from_le_bytes();
    }
    Some(v)
}

/// The 64-bit integer whose encoding stands at `pos`.
pub fn get_u64(bytes: &[u8], pos: usize) -> (res: Option<u64>)
    requires
        pos <= bytes@.len(),
    ensures
        match res {
            Some(v) => starts_with(bytes@, pos as int, enc_u64(v)),
            None => pos + 8 > bytes@.len(),
        },
{
    if bytes.len() - pos < 8 {
        return None;
    }
    let v: u64 = u64_from_le_bytes(slice_subrange(bytes, pos, pos + 8));
    proof {
        lemma_auto_spec_u64_to_from_le_bytes();
    }
    Some(v)
}

/// The request id whose encoding stands at `pos`.
pub fn get_uuid(bytes: &[u8], pos: usize) -> (res: Option<u128>)
    requires
        pos <= bytes@.len(),
    ensures
        match res {
            Some(u) => starts_with(bytes@, pos as int, enc_uuid(u)),
            None => forall|w: u128| !starts_with(bytes@, pos as int, #[trigger] enc_uuid(w)),
        },
{
    proof {
        lemma_auto_spec_u64_to_from_le_bytes();
        lemma_auto_spec_u128_to_from_le_bytes();
        assert forall|w: u128| #[trigger]
            starts_with(bytes@, pos as int, enc_uuid(w)) implies starts_with(
            bytes@,
            pos as int,
            enc_u64(16),
        ) && pos + 24 <= bytes@.len() by {
            lemma_starts_with_concat(bytes@, pos as int, enc_u64(16), id_bytes(w));
        }
    }
    let n: u64 = match get_u64(bytes, pos) {
        Some(n) => n,
        None => {
            return None;
        },
    };
    if n != 16 {
        proof {
            assert forall|w: u128| !starts_with(bytes@, pos as int, #[trigger] enc_uuid(w)) by {
                if starts_with(bytes@, pos as int, enc_uuid(w)) {
                    lemma_u64_at(bytes@, pos as int, n, 16);
                }
            }
        }
        return None;
    }
    if bytes.len() - (pos + 8) < 16 {
        return None;
    }
    let field = slice_subrange(bytes, pos + 8, pos + 24);
    let mut le: Vec<u8> = Vec::new();
    let mut i: usize = 0;
    while i < 16
        invariant
            i <= 16,
            field@.len() == 16,
            le@.len() == i,
            forall|k: int| 0 <= k < i ==> le@[k] == field@[15 - k],
        decreases 16 - i,
    {
        le.push(field[15 - i]);
        i += 1;
    }
    let u: u128 = u128_from_le_bytes(le.as_slice());
    proof {
        assert(spec_u128_to_le_bytes(u) == le@);
        assert(id_bytes(u) =~= field@);
        lemma_starts_with_concat(bytes@, pos as int, enc_u64(16), id_bytes(u));
    }
    Some(u)
}

/// Where the entries `v` stand at `pos` and `x` stands behind them, the
/// entries `v` with `x` added stand at `pos`.
pub proof fn lemma_entries_grow(s: Seq<u8>, pos: int, v: Seq<u64>, x: u64)
    requires
        starts_with(s, pos, enc_entries(v)),
        starts_with(s, pos + 8 * v.len(), enc_u64(x)),
    ensures
        starts_with(s, pos, enc_entries(v.push(x))),
{
    lemma_enc_entries(v);
    assert(v.push(x).drop_last() =~= v);
    lemma_starts_with_concat(s, pos, enc_entries(v), enc_u64(x));
}

/// The vector of 64-bit integers whose encoding stands at `pos`, and the
/// position behind it.
pub fn get_u64s(bytes: &[u8], pos: usize) -> (res: Option<(Vec<u64>, usize)>)
    requires
        pos <= bytes@.len(),
    ensures
        match res {
            Some((v, next)) => starts_with(bytes@, pos as int, enc_u64s(v@)) && next == pos
                + enc_u64s(v@).len() && next <= bytes@.len() && v@.len() <= usize::MAX,
            None => forall|w: Seq<u64>|
                w.len() <= u64::MAX ==> !starts_with(bytes@, pos as int, #[trigger] enc_u64s(w)),
        },
{
    proof {
        lemma_auto_spec_u64_to_from_le_bytes();
        assert forall|w: Seq<u64>|
            w.len() <= u64::MAX && #[trigger] starts_with(
                bytes@,
                pos as int,
                enc_u64s(w),
            ) implies starts_with(
            bytes@,
            pos as int,
            enc_u64(w.len() as u64),
        ) && pos + 8 + 8 * w.len() <= bytes@.len() by {
            lemma_enc_entries(w);
            lemma_starts_with_concat(bytes@, pos as int, enc_u64(w.len() as u64), enc_entries(w));
        }
    }
    let n: u64 = match get_u64(bytes, pos) {
        Some(n) => n,
        None => {
            return None;
        },
    };
    let room: usize = bytes.len() - (pos + 8);
    if n > (room / 8) as u64 {
        proof {
            assert forall|w: Seq<u64>| w.len() <= u64::MAX implies !starts_with(
                bytes@,
                pos as int,
                #[trigger] enc_u64s(w),
            ) by {
                if starts_with(bytes@, pos as int, enc_u64s(w)) {
                    lemma_u64_at(bytes@, pos as int, n, w.len() as u64);
                }
            }
        }
        return None;
    }
    let count: usize = n as usize;
    let mut v: Vec<u64> = Vec::new();
    let mut i: usize = 0;
    proof {
        assert(bytes@.subrange(pos + 8, pos + 8) =~= enc_entries(v@));
    }
    while i < count
        invariant
            i <= count,
            count == n,
            bytes@.len() <= usize::MAX,
            pos + 8 + 8 * count <= bytes@.len(),
            v@.len() == i,
            starts_with(bytes@, pos + 8, enc_entries(v@)),
        decreases count - i,
    {
        let x: u64 = match get_u64(bytes, pos + 8 + 8 * i) {
            Some(x) => x,
            None => {
                return None;
            },
        };
        proof {
            lemma_entries_grow(bytes@, pos + 8, v@, x);
        }
        v.push(x);
        i += 1;
    }
    proof {
        lemma_enc_entries(v@);
        lemma_starts_with_concat(bytes@, pos as int, enc_u64(v@.len() as u64), enc_entries(v@));
    }
    Some((v, pos + 8 + 8 * count))
}

/// The vector of bytes whose encoding stands at `pos`, and the position
/// behind it.
pub fn get_bytes(bytes: &[u8], pos: usize) -> (res: Option<(Vec<u8>, usize)>)
    requires
        pos <= bytes@.len(),
    ensures
        match res {
            Some((v, next)) => starts_with(bytes@, pos as int, enc_bytes(v@)) && next == pos
                + enc_bytes(v@).len() && next <= bytes@.len() && v@.len() <= usize::MAX,
            None => forall|w: Seq<u8>|
                w.len() <= u64::MAX ==> !starts_with(bytes@, pos as int, #[trigger] enc_bytes(w)),
        },
{
    proof {
        lemma_auto_spec_u64_to_from_le_bytes();
        assert forall|w: Seq<u8>|
            w.len() <= u64::MAX && #[trigger] starts_with(
                bytes@,
                pos as int,
                enc_bytes(w),
            ) implies starts_with(
            bytes@,
            pos as int,
            enc_u64(w.len() as u64),
        ) && pos + 8 + w.len() <= bytes@.len() by {
            lemma_starts_with_concat(bytes@, pos as int, enc_u64(w.len() as u64), w);
        }
    }
    let n: u64 = match get_u64(bytes, pos) {
        Some(n) => n,
        None => {
            return None;
        },
    };
    let room: usize = bytes.len() - (pos + 8);
    if n > room as u64 {
        proof {
            assert forall|w: Seq<u8>| w.len() <= u64::MAX implies !starts_with(
                bytes@,
                pos as int,
                #[trigger] enc_bytes(w),
            ) by {
                if starts_with(bytes@, pos as int, enc_bytes(w)) {
                    lemma_u64_at(bytes@, pos as int, n, w.len() as u64);
                }
            }
        }
        return None;
    }
    let count: usize = n as usize;
    let mut v: Vec<u8> = Vec::new();
    let mut i: usize = 0;
    while i < count
        invariant
            i <= count,
            bytes@.len() <= usize::MAX,
            pos + 8 + count <= bytes@.len(),
            v@ == bytes@.subrange(pos + 8, pos + 8 + i),
        decreases count - i,
    {
        v.push(bytes[pos + 8 + i]);
        proof {
            assert(v@ =~= bytes@.subrange(pos + 8, pos + 8 + i + 1));
        }
        i += 1;
    }
    proof {
        lemma_starts_with_concat(bytes@, pos as int, enc_u64(v@.len() as u64), v@);
    }
    Some((v, pos + 8 + count))
}

/// Whether the vectors of a proof are short enough for their lengths to be
/// encoded.
pub open spec fn proof_fits(p: ProofView) -> bool {
    &&& p.x.len() <= u64::MAX
    &&& p.w.len() <= u64::MAX
    &&& p.z.len() <= u64::MAX
    &&& p.c.len() <= u64::MAX
}

/// The encoding of a proof: its vectors `x`, `w`, `z` and `c`, then its
/// modulus.
pub open spec fn enc_proof(p: ProofView) -> Seq<u8> {
    enc_u64s(p.x) + enc_u64s(p.w) + enc_u64s(p.z) + enc_u64s(p.c) + enc_u64(p.q)
}

/// The encoding of a proof stands at a position exactly where the encodings
/// of its fields stand there in a row.
pub proof fn lemma_proof_parts(s: Seq<u8>, pos: int, p: ProofView)
    ensures
        starts_with(s, pos, enc_proof(p)) <==> {
            let a = pos + enc_u64s(p.x).len();
            let b = a + enc_u64s(p.w).len();
            let c = b + enc_u64s(p.z).len();
            let d = c + enc_u64s(p.c).len();
            &&& starts_with(s, pos, enc_u64s(p.x))
            &&& starts_with(s, a, enc_u64s(p.w))
            &&& starts_with(s, b, enc_u64s(p.z))
            &&& starts_with(s, c, enc_u64s(p.c))
            &&& starts_with(s, d, enc_u64(p.q))
        },
        enc_proof(p).len() == enc_u64s(p.x).len() + enc_u64s(p.w).len() + enc_u64s(p.z).len()
            + enc_u64s(p.c).len() + 8,
{
    lemma_auto_spec_u64_to_from_le_bytes();
    let ex = enc_u64s(p.x);
    let ew = enc_u64s(p.w);
    let ez = enc_u64s(p.z);
    let ec = enc_u64s(p.c);
    lemma_starts_with_concat(s, pos, ex + ew + ez + ec, enc_u64(p.q));
    lemma_starts_with_concat(s, pos, ex + ew + ez, ec);
    lemma_starts_with_concat(s, pos, ex + ew, ez);
    lemma_starts_with_concat(s, pos, ex, ew);
}

/// At one position stands the encoding of at most one proof.
pub proof fn lemma_proof_at(s: Seq<u8>, pos: int, p: ProofView, r: ProofView)
    requires
        proof_fits(p),
        proof_fits(r),
        starts_with(s, pos, enc_proof(p)),
        starts_with(s, pos, enc_proof(r)),
    ensures
        p == r,
{
    lemma_proof_parts(s, pos, p);
    lemma_proof_parts(s, pos, r);
    lemma_u64s_at(s, pos, p.x, r.x);
    let a = pos + enc_u64s(p.x).len();
    lemma_u64s_at(s, a, p.w, r.w);
    let b = a + enc_u64s(p.w).len();
    lemma_u64s_at(s, b, p.z, r.z);
    let c = b + enc_u64s(p.z).len();
    lemma_u64s_at(s, c, p.c, r.c);
    let d = c + enc_u64s(p.c).len();
    lemma_u64_at(s, d, p.q, r.q);
}

/// Appends the encoding of a proof.
pub fn put_proof(out: &mut Vec<u8>, p: &Proofu64)
    ensures
        final(out)@ == old(out)@ + enc_proof(p@),
{
    put_u64s(out, &p.x);
    put_u64s(out, &p.w);
    put_u64s(out, &p.z);
    put_u64s(out, &p.c);
    put_u64(out, p.q);
    proof {
        assert(out@ =~= old(out)@ + enc_proof(p@));
    }
}

/// The proof whose encoding stands at `pos`, and the position behind it.
pub fn get_proof(bytes: &[u8], pos: usize) -> (res: Option<(Proofu64, usize)>)
    requires
        pos <= bytes@.len(),
    ensures
        match res {
            Some((p, next)) => starts_with(bytes@, pos as int, enc_proof(p@)) && next == pos
                + enc_proof(p@).len() && next <= bytes@.len() && proof_fits(p@),
            None => forall|r: ProofView|
                proof_fits(r) ==> !starts_with(bytes@, pos as int, #[trigger] enc_proof(r)),
        },
{
    proof {
        assert forall|r: ProofView| #[trigger]
            starts_with(bytes@, pos as int, enc_proof(r)) implies starts_with(
            bytes@,
            pos as int,
            enc_u64s(r.x),
        ) by {
            lemma_proof_parts(bytes@, pos as int, r);
        }
    }
    let (x, a) = match get_u64s(bytes, pos) {
        Some(got) => got,
        None => {
            return None;
        },
    };
    let (w, b) = match get_u64s(bytes, a) {
        Some(got) => got,
        None => {
            proof {
                assert forall|r: ProofView| proof_fits(r) implies !starts_with(
                    bytes@,
                    pos as int,
                    #[trigger] enc_proof(r),
                ) by {
                    if starts_with(bytes@, pos as int, enc_proof(r)) {
                        lemma_proof_parts(bytes@, pos as int, r);
                        lemma_u64s_at(bytes@, pos as int, x@, r.x);
                    }
                }
            }
            return None;
        },
    };
    let (z, c) = match get_u64s(bytes, b) {
        Some(got) => got,
        None => {
            proof {
                assert forall|r: ProofView| proof_fits(r) implies !starts_with(
                    bytes@,
                    pos as int,
                    #[trigger] enc_proof(r),
                ) by {
                    if starts_with(bytes@, pos as int, enc_proof(r)) {
                        lemma_proof_parts(bytes@, pos as int, r);
                        lemma_u64s_at(bytes@, pos as int, x@, r.x);
                        lemma_u64s_at(bytes@, a as int, w@, r.w);
                    }
                }
            }
            return None;
        },
    };
    let (cs, d) = match get_u64s(bytes, c) {
        Some(got) => got,
        None => {
            proof {
                assert forall|r: ProofView| proof_fits(r) implies !starts_with(
                    bytes@,
                    pos as int,
                    #[trigger] enc_proof(r),
                ) by {
                    if starts_with(bytes@, pos as int, enc_proof(r)) {
                        lemma_proof_parts(bytes@, pos as int, r);
                        lemma_u64s_at(bytes@, pos as int, x@, r.x);
                        lemma_u64s_at(bytes@, a as int, w@, r.w);
                        lemma_u64s_at(bytes@, b as int, z@, r.z);
                    }
                }
            }
            return None;
        },
    };
    let q: u64 = match get_u64(bytes, d) {
        Some(got) => got,
        None => {
            proof {
                lemma_auto_spec_u64_to_from_le_bytes();
                assert forall|r: ProofView| proof_fits(r) implies !starts_with(
                    bytes@,
                    pos as int,
                    #[trigger] enc_proof(r),
                ) by {
                    if starts_with(bytes@, pos as int, enc_proof(r)) {
                        lemma_proof_parts(bytes@, pos as int, r);
                        lemma_u64s_at(bytes@, pos as int, x@, r.x);
                        lemma_u64s_at(bytes@, a as int, w@, r.w);
                        lemma_u64s_at(bytes@, b as int, z@, r.z);
                        lemma_u64s_at(bytes@, c as int, cs@, r.c);
                    }
                }
            }
            return None;
        },
    };
    let p = Proofu64 { x, w, z, c: cs, q };
    let len: usize = bytes.len();
    proof {
        lemma_auto_spec_u64_to_from_le_bytes();
        lemma_proof_parts(bytes@, pos as int, p@);
        assert(d + 8 <= len);
    }
    Some((p, d + 8))
}

/// The encoding of the submission that carries its share in full: the
/// request id, the bucket index, the proof.
pub open spec fn enc_payload(uuid: u128, index: u32, proof: ProofView) -> Seq<u8> {
    enc_uuid(uuid) + enc_u32(index) + enc_proof(proof)
}

/// The encoding of a payload is the encodings of its fields in a row, of
/// which the first two take 28 bytes.
pub proof fn lemma_payload_parts(s: Seq<u8>, uuid: u128, index: u32, proof: ProofView)
    ensures
        starts_with(s, 0, enc_payload(uuid, index, proof)) <==> {
            &&& starts_with(s, 0, enc_uuid(uuid))
            &&& starts_with(s, 24, enc_u32(index))
            &&& starts_with(s, 28, enc_proof(proof))
        },
        enc_payload(uuid, index, proof).len() == 28 + enc_proof(proof).len(),
{
    lemma_auto_spec_u64_to_from_le_bytes();
    lemma_auto_spec_u32_to_from_le_bytes();
    lemma_starts_with_concat(s, 0, enc_uuid(uuid) + enc_u32(index), enc_proof(proof));
    lemma_starts_with_concat(s, 0, enc_uuid(uuid), enc_u32(index));
}

/// The encoding of a payload.
pub fn encode_payload(p: &Payload) -> (out: Vec<u8>)
    ensures
        out@ == enc_payload(p.uuid, p.index, p.proof@),
{
    let mut out: Vec<u8> = Vec::new();
    put_uuid(&mut out, p.uuid);
    put_u32(&mut out, p.index);
    put_proof(&mut out, &p.proof);
    proof {
        assert(out@ =~= enc_payload(p.uuid, p.index, p.proof@));
    }
    out
}

/// The payload that `bytes` encode.
///
/// Fails with `MalformedPayload` where `bytes` encode no payload.
pub fn decode_payload(bytes: &[u8]) -> (res: Result<Payload, Error>)
    ensures
        match res {
            Ok(p) => bytes@ == enc_payload(p.uuid, p.index, p.proof@) && proof_fits(p.proof@),
            Err(e) => e == Error::MalformedPayload && forall|uuid: u128, index: u32, r: ProofView|
                proof_fits(r) ==> #[trigger] enc_payload(uuid, index, r) != bytes@,
        },
{
    proof {
        assert forall|uuid: u128, index: u32, r: ProofView| #[trigger]
            enc_payload(uuid, index, r) == bytes@ implies starts_with(bytes@, 0, enc_uuid(uuid))
            && starts_with(bytes@, 24, enc_u32(index)) && starts_with(bytes@, 28, enc_proof(r))
            && bytes@.len() == 28 + enc_proof(r).len() by {
            lemma_starts_with_whole(bytes@, enc_payload(uuid, index, r));
            lemma_payload_parts(bytes@, uuid, index, r);
        }
        lemma_auto_spec_u64_to_from_le_bytes();
        lemma_auto_spec_u32_to_from_le_bytes();
    }
    let uuid: u128 = match get_uuid(bytes, 0) {
        Some(u) => u,
        None => {
            return Err(Error::MalformedPayload);
        },
    };
    let index: u32 = match get_u32(bytes, 24) {
        Some(i) => i,
        None => {
            return Err(Error::MalformedPayload);
        },
    };
    let (proof, next) = match get_proof(bytes, 28) {
        Some(got) => got,
        None => {
            return Err(Error::MalformedPayload);
        },
    };
    if next != bytes.len() {
        proof {
            assert forall|u: u128, i: u32, r: ProofView| proof_fits(r) implies #[trigger] enc_payload(
                u,
                i,
                r,
            ) != bytes@ by {
                if enc_payload(u, i, r) == bytes@ {
                    lemma_proof_at(bytes@, 28, proof@, r);
                }
            }
        }
        return Err(Error::MalformedPayload);
    }
    proof {
        lemma_payload_parts(bytes@, uuid, index, proof@);
        lemma_starts_with_whole(bytes@, enc_payload(uuid, index, proof@));
    }
    Ok(Payload { uuid, index, proof })
}

/// The encoding of the seed form of a share: the seed, the four lengths,
/// the modulus.
pub open spec fn enc_proof_seed(ps: ProofSeed) -> Seq<u8> {
    enc_u64(ps.seed) + enc_u16(ps.x_len) + enc_u16(ps.w_len) + enc_u16(ps.z_len) + enc_u16(
        ps.c_len,
    ) + enc_u64(ps.q)
}

/// The encoding of the submission that carries its share as a seed: the
/// request id, the bucket index, the seed form.
pub open spec fn enc_payload_seed(uuid: u128, index: u32, ps: ProofSeed) -> Seq<u8> {
    enc_uuid(uuid) + enc_u32(index) + enc_proof_seed(ps)
}

/// The encoding of a seed payload takes 52 bytes, and its fields stand at
/// fixed positions.
pub proof fn lemma_payload_seed_parts(s: Seq<u8>, uuid: u128, index: u32, ps: ProofSeed)
    ensures
        starts_with(s, 0, enc_payload_seed(uuid, index, ps)) <==> {
            &&& starts_with(s, 0, enc_uuid(uuid))
            &&& starts_with(s, 24, enc_u32(index))
            &&& starts_with(s, 28, enc_u64(ps.seed))
            &&& starts_with(s, 36, enc_u16(ps.x_len))
            &&& starts_with(s, 38, enc_u16(ps.w_len))
            &&& starts_with(s, 40, enc_u16(ps.z_len))
            &&& starts_with(s, 42, enc_u16(ps.c_len))
            &&& starts_with(s, 44, enc_u64(ps.q))
        },
        enc_payload_seed(uuid, index, ps).len() == 52,
{
    lemma_auto_spec_u64_to_from_le_bytes();
    lemma_auto_spec_u32_to_from_le_bytes();
    lemma_auto_spec_u16_to_from_le_bytes();
    let head = enc_uuid(uuid) + enc_u32(index);
    let a = enc_u64(ps.seed);
    let b = enc_u16(ps.x_len);
    let c = enc_u16(ps.w_len);
    let d = enc_u16(ps.z_len);
    let e = enc_u16(ps.c_len);
    let f = enc_u64(ps.q);
    lemma_starts_with_concat(s, 0, head, enc_proof_seed(ps));
    lemma_starts_with_concat(s, 0, enc_uuid(uuid), enc_u32(index));
    lemma_starts_with_concat(s, 28, a + b + c + d + e, f);
    lemma_starts_with_concat(s, 28, a + b + c + d, e);
    lemma_starts_with_concat(s, 28, a + b + c, d);
    lemma_starts_with_concat(s, 28, a + b, c);
    lemma_starts_with_concat(s, 28, a, b);
}

/// The encoding of a seed payload.
pub fn encode_payload_seed(p: &PayloadSeed) -> (out: Vec<u8>)
    ensures
        out@ == enc_payload_seed(p.uuid, p.index, p.proofseed),
{
    let mut out: Vec<u8> = Vec::new();
    put_uuid(&mut out, p.uuid);
    put_u32(&mut out, p.index);
    put_u64(&mut out, p.proofseed.seed);
    put_u16(&mut out, p.proofseed.x_len);
    put_u16(&mut out, p.proofseed.w_len);
    put_u16(&mut out, p.proofseed.z_len);
    put_u16(&mut out, p.proofseed.c_len);
    put_u64(&mut out, p.proofseed.q);
    proof {
        assert(out@ =~= enc_payload_seed(p.uuid, p.index, p.proofseed));
    }
    out
}

/// The seed payload that `bytes` encode.
///
/// Fails with `MalformedPayload` where `bytes` encode no seed payload.
pub fn decode_payload_seed(bytes: &[u8]) -> (res: Result<PayloadSeed, Error>)
    ensures
        match res {
            Ok(p) => bytes@ == enc_payload_seed(p.uuid, p.index, p.proofseed),
            Err(e) => e == Error::MalformedPayload && forall|uuid: u128, index: u32, ps: ProofSeed|
             #[trigger] enc_payload_seed(uuid, index, ps) != bytes@,
        },
{
    proof {
        assert forall|uuid: u128, index: u32, ps: ProofSeed| #[trigger]
            enc_payload_seed(uuid, index, ps) == bytes@ implies starts_with(
            bytes@,
            0,
            enc_uuid(uuid),
        ) && bytes@.len() == 52 by {
            lemma_starts_with_whole(bytes@, enc_payload_seed(uuid, index, ps));
            lemma_payload_seed_parts(bytes@, uuid, index, ps);
        }
    }
    if bytes.len() != 52 {
        return Err(Error::MalformedPayload);
    }
    let uuid: u128 = match get_uuid(bytes, 0) {
        Some(u) => u,
        None => {
            return Err(Error::MalformedPayload);
        },
    };
    let index = get_u32(bytes, 24);
    let seed = get_u64(bytes, 28);
    let x_len = get_u16(bytes, 36);
    let w_len = get_u16(bytes, 38);
    let z_len = get_u16(bytes, 40);
    let c_len = get_u16(bytes, 42);
    let q = get_u64(bytes, 44);
    match (index, seed, x_len, w_len, z_len, c_len, q) {
        (Some(index), Some(seed), Some(x_len), Some(w_len), Some(z_len), Some(c_len), Some(q)) => {
            let proofseed = ProofSeed { seed, x_len, w_len, z_len, c_len, q };
            proof {
                lemma_payload_seed_parts(bytes@, uuid, index, proofseed);
                lemma_starts_with_whole(bytes@, enc_payload_seed(uuid, index, proofseed));
            }
            Ok(PayloadSeed { uuid, index, proofseed })
        },
        _ => Err(Error::MalformedPayload),
    }
}

/// The encoding of the answers of an aggregator: `a`, `a1`, `d1`, `a2`,
/// `d2`, `b`, then the modulus.
pub open spec fn enc_query_res(r: QueryRes) -> Seq<u8> {
    enc_u64(r.a) + enc_u64(r.a1) + enc_u64(r.d1) + enc_u64(r.a2) + enc_u64(r.d2) + enc_u64(r.b)
        + enc_u64(r.q)
}

/// The encoding of answers takes 56 bytes, and field `i` stands at the
/// position `8 * i`.
pub proof fn lemma_query_res_parts(s: Seq<u8>, r: QueryRes)
    ensures
        starts_with(s, 0, enc_query_res(r)) <==> {
            &&& starts_with(s, 0, enc_u64(r.a))
            &&& starts_with(s, 8, enc_u64(r.a1))
            &&& starts_with(s, 16, enc_u64(r.d1))
            &&& starts_with(s, 24, enc_u64(r.a2))
            &&& starts_with(s, 32, enc_u64(r.d2))
            &&& starts_with(s, 40, enc_u64(r.b))
            &&& starts_with(s, 48, enc_u64(r.q))
        },
        enc_query_res(r).len() == 56,
{
    lemma_auto_spec_u64_to_from_le_bytes();
    let a = enc_u64(r.a);
    let b = enc_u64(r.a1);
    let c = enc_u64(r.d1);
    let d = enc_u64(r.a2);
    let e = enc_u64(r.d2);
    let f = enc_u64(r.b);
    let g = enc_u64(r.q);
    lemma_starts_with_concat(s, 0, a + b + c + d + e + f, g);
    lemma_starts_with_concat(s, 0, a + b + c + d + e, f);
    lemma_starts_with_concat(s, 0, a + b + c + d, e);
    lemma_starts_with_concat(s, 0, a + b + c, d);
    lemma_starts_with_concat(s, 0, a + b, c);
    lemma_starts_with_concat(s, 0, a, b);
}

/// The encoding of the answers of an aggregator.
pub fn encode_query_res(r: &QueryRes) -> (out: Vec<u8>)
    ensures
        out@ == enc_query_res(*r),
{
    let mut out: Vec<u8> = Vec::new();
    put_u64(&mut out, r.a);
    put_u64(&mut out, r.a1);
    put_u64(&mut out, r.d1);
    put_u64(&mut out, r.a2);
    put_u64(&mut out, r.d2);
    put_u64(&mut out, r.b);
    put_u64(&mut out, r.q);
    proof {
        assert(out@ =~= enc_query_res(*r));
    }
    out
}

/// The answers that `bytes` encode.
///
/// Fails with `MalformedPayload` where `bytes` are not 56 in number.
pub fn decode_query_res(bytes: &[u8]) -> (res: Result<QueryRes, Error>)
    ensures
        match res {
            Ok(r) => bytes@ == enc_query_res(r),
            Err(e) => e == Error::MalformedPayload && bytes@.len() != 56,
        },
{
    if bytes.len() != 56 {
        return Err(Error::MalformedPayload);
    }
    let a = get_u64(bytes, 0);
    let a1 = get_u64(bytes, 8);
    let d1 = get_u64(bytes, 16);
    let a2 = get_u64(bytes, 24);
    let d2 = get_u64(bytes, 32);
    let b = get_u64(bytes, 40);
    let q = get_u64(bytes, 48);
    match (a, a1, d1, a2, d2, b, q) {
        (Some(a), Some(a1), Some(d1), Some(a2), Some(d2), Some(b), Some(q)) => {
            let r = QueryRes { a, a1, d1, a2, d2, b, q };
            proof {
                lemma_query_res_parts(bytes@, r);
                lemma_starts_with_whole(bytes@, enc_query_res(r));
            }
            Ok(r)
        },
        _ => Err(Error::MalformedPayload),
    }
}

/// The encoding of a sealed message: the encapsulated key, the ciphertext,
/// the tag.
pub open spec fn enc_hpke_out(key: Seq<u8>, text: Seq<u8>, tag: Seq<u8>) -> Seq<u8> {
    enc_bytes(key) + enc_bytes(text) + enc_bytes(tag)
}

/// The encoding of a sealed message is the encodings of its three parts in
/// a row.
pub proof fn lemma_hpke_out_parts(s: Seq<u8>, key: Seq<u8>, text: Seq<u8>, tag: Seq<u8>)
    ensures
        starts_with(s, 0, enc_hpke_out(key, text, tag)) <==> {
            let a = enc_bytes(key).len() as int;
            let b = a + enc_bytes(text).len();
            &&& starts_with(s, 0, enc_bytes(key))
            &&& starts_with(s, a, enc_bytes(text))
            &&& starts_with(s, b, enc_bytes(tag))
        },
        enc_hpke_out(key, text, tag).len() == enc_bytes(key).len() + enc_bytes(text).len()
            + enc_bytes(tag).len(),
{
    lemma_starts_with_concat(s, 0, enc_bytes(key) + enc_bytes(text), enc_bytes(tag));
    lemma_starts_with_concat(s, 0, enc_bytes(key), enc_bytes(text));
}

/// The encoding of a sealed message.
pub fn encode_hpke_out(m: &HPKEOut) -> (out: Vec<u8>)
    ensures
        out@ == enc_hpke_out(m.encapped_key@, m.ciphertext@, m.tag@),
{
    let mut out: Vec<u8> = Vec::new();
    put_bytes(&mut out, &m.encapped_key);
    put_bytes(&mut out, &m.ciphertext);
    put_bytes(&mut out, &m.tag);
    proof {
        assert(out@ =~= enc_hpke_out(m.encapped_key@, m.ciphertext@, m.tag@));
    }
    out
}

/// The sealed message that `bytes` encode.
///
/// Fails with `MalformedPayload` where `bytes` encode no sealed message.
pub fn decode_hpke_out(bytes: &[u8]) -> (res: Result<HPKEOut, Error>)
    ensures
        match res {
            Ok(m) => bytes@ == enc_hpke_out(m.encapped_key@, m.ciphertext@, m.tag@)
                && m.encapped_key@.len() <= usize::MAX && m.ciphertext@.len() <= usize::MAX
                && m.tag@.len() <= usize::MAX,
            Err(e) => e == Error::MalformedPayload && forall|key: Seq<u8>, text: Seq<u8>, tag: Seq<u8>|
                key.len() <= u64::MAX && text.len() <= u64::MAX && tag.len() <= u64::MAX
                    ==> #[trigger] enc_hpke_out(key, text, tag) != bytes@,
        },
{
    proof {
        assert forall|key: Seq<u8>, text: Seq<u8>, tag: Seq<u8>| #[trigger]
            enc_hpke_out(key, text, tag) == bytes@ implies starts_with(bytes@, 0, enc_bytes(key))
            && starts_with(bytes@, enc_bytes(key).len() as int, enc_bytes(text)) && starts_with(
            bytes@,
            (enc_bytes(key).len() + enc_bytes(text).len()) as int,
            enc_bytes(tag),
        ) && bytes@.len() == enc_bytes(key).len() + enc_bytes(text).len() + enc_bytes(
            tag,
        ).len() by {
            lemma_starts_with_whole(bytes@, enc_hpke_out(key, text, tag));
            lemma_hpke_out_parts(bytes@, key, text, tag);
        }
    }
    let (encapped_key, a) = match get_bytes(bytes, 0) {
        Some(got) => got,
        None => {
            return Err(Error::MalformedPayload);
        },
    };
    let (ciphertext, b) = match get_bytes(bytes, a) {
        Some(got) => got,
        None => {
            proof {
                assert forall|key: Seq<u8>, text: Seq<u8>, tag: Seq<u8>|
                    key.len() <= u64::MAX && text.len() <= u64::MAX && tag.len()
                        <= u64::MAX implies #[trigger] enc_hpke_out(key, text, tag) != bytes@ by {
                    if enc_hpke_out(key, text, tag) == bytes@ {
                        lemma_bytes_at(bytes@, 0, encapped_key@, key);
                    }
                }
            }
            return Err(Error::MalformedPayload);
        },
    };
    let (tag, c) = match get_bytes(bytes, b) {
        Some(got) => got,
        None => {
            proof {
                assert forall|key: Seq<u8>, text: Seq<u8>, tag: Seq<u8>|
                    key.len() <= u64::MAX && text.len() <= u64::MAX && tag.len()
                        <= u64::MAX implies #[trigger] enc_hpke_out(key, text, tag) != bytes@ by {
                    if enc_hpke_out(key, text, tag) == bytes@ {
                        lemma_bytes_at(bytes@, 0, encapped_key@, key);
                        lemma_bytes_at(bytes@, a as int, ciphertext@, text);
                    }
                }
            }
            return Err(Error::MalformedPayload);
        },
    };
    if c != bytes.len() {
        proof {
            assert forall|key: Seq<u8>, text: Seq<u8>, t: Seq<u8>|
                key.len() <= u64::MAX && text.len() <= u64::MAX && t.len()
                    <= u64::MAX implies #[trigger] enc_hpke_out(key, text, t) != bytes@ by {
                if enc_hpke_out(key, text, t) == bytes@ {
                    lemma_bytes_at(bytes@, 0, encapped_key@, key);
                    lemma_bytes_at(bytes@, a as int, ciphertext@, text);
                    lemma_bytes_at(bytes@, b as int, tag@, t);
                }
            }
        }
        return Err(Error::MalformedPayload);
    }
    proof {
        lemma_hpke_out_parts(bytes@, encapped_key@, ciphertext@, tag@);
        lemma_starts_with_whole(bytes@, enc_hpke_out(encapped_key@, ciphertext@, tag@));
    }
    Ok(HPKEOut { encapped_key, ciphertext, tag })
}

/// The encoding of the pair of sealed submissions that a proxy opens: the
/// one for the first aggregator, then the one for the second.
pub open spec fn enc_inner(left: Seq<u8>, right: Seq<u8>) -> Seq<u8> {
    enc_bytes(left) + enc_bytes(right)
}

/// The encoding of a pair of sealed submissions.
pub fn encode_inner(m: &InnerCiphertexts) -> (out: Vec<u8>)
    ensures
        out@ == enc_inner(m.left@, m.right@),
{
    let mut out: Vec<u8> = Vec::new();
    put_bytes(&mut out, &m.left);
    put_bytes(&mut out, &m.right);
    proof {
        assert(out@ =~= enc_inner(m.left@, m.right@));
    }
    out
}

/// The pair of sealed submissions that `bytes` encode.
///
/// Fails with `MalformedPayload` where `bytes` encode no such pair.
pub fn decode_inner(bytes: &[u8]) -> (res: Result<InnerCiphertexts, Error>)
    ensures
        match res {
            Ok(m) => bytes@ == enc_inner(m.left@, m.right@) && m.left@.len() <= usize::MAX
                && m.right@.len() <= usize::MAX,
            Err(e) => e == Error::MalformedPayload && forall|left: Seq<u8>, right: Seq<u8>|
                left.len() <= u64::MAX && right.len() <= u64::MAX ==> #[trigger] enc_inner(
                    left,
                    right,
                ) != bytes@,
        },
{
    proof {
        assert forall|left: Seq<u8>, right: Seq<u8>| #[trigger]
            enc_inner(left, right) == bytes@ implies starts_with(bytes@, 0, enc_bytes(left))
            && starts_with(bytes@, enc_bytes(left).len() as int, enc_bytes(right)) && bytes@.len()
            == enc_bytes(left).len() + enc_bytes(right).len() by {
            lemma_starts_with_whole(bytes@, enc_inner(left, right));
            lemma_starts_with_concat(bytes@, 0, enc_bytes(left), enc_bytes(right));
        }
    }
    let (left, a) = match get_bytes(bytes, 0) {
        Some(got) => got,
        None => {
            return Err(Error::MalformedPayload);
        },
    };
    let (right, b) = match get_bytes(bytes, a) {
        Some(got) => got,
        None => {
            proof {
                assert forall|l: Seq<u8>, r: Seq<u8>|
                    l.len() <= u64::MAX && r.len() <= u64::MAX implies #[trigger] enc_inner(l, r)
                    != bytes@ by {
                    if enc_inner(l, r) == bytes@ {
                        lemma_bytes_at(bytes@, 0, left@, l);
                    }
                }
            }
            return Err(Error::MalformedPayload);
        },
    };
    if b != bytes.len() {
        proof {
            assert forall|l: Seq<u8>, r: Seq<u8>|
                l.len() <= u64::MAX && r.len() <= u64::MAX implies #[trigger] enc_inner(l, r)
                != bytes@ by {
                if enc_inner(l, r) == bytes@ {
                    lemma_bytes_at(bytes@, 0, left@, l);
                    lemma_bytes_at(bytes@, a as int, right@, r);
                }
            }
        }
        return Err(Error::MalformedPayload);
    }
    proof {
        lemma_starts_with_concat(bytes@, 0, enc_bytes(left@), enc_bytes(right@));
        lemma_starts_with_whole(bytes@, enc_inner(left@, right@));
    }
    Ok(InnerCiphertexts { left, right })
}

/// Equal encodings come from equal sealed messages.
pub proof fn lemma_hpke_out_unique(
    key: Seq<u8>,
    text: Seq<u8>,
    tag: Seq<u8>,
    key2: Seq<u8>,
    text2: Seq<u8>,
    tag2: Seq<u8>,
)
    requires
        key.len() <= u64::MAX && text.len() <= u64::MAX && tag.len() <= u64::MAX,
        key2.len() <= u64::MAX && text2.len() <= u64::MAX && tag2.len() <= u64::MAX,
        enc_hpke_out(key, text, tag) == enc_hpke_out(key2, text2, tag2),
    ensures
        key == key2,
        text == text2,
        tag == tag2,
{
    let s = enc_hpke_out(key, text, tag);
    lemma_starts_with_whole(s, enc_hpke_out(key, text, tag));
    lemma_starts_with_whole(s, enc_hpke_out(key2, text2, tag2));
    lemma_hpke_out_parts(s, key, text, tag);
    lemma_hpke_out_parts(s, key2, text2, tag2);
    lemma_bytes_at(s, 0, key, key2);
    lemma_bytes_at(s, enc_bytes(key).len() as int, text, text2);
    lemma_bytes_at(s, (enc_bytes(key).len() + enc_bytes(text).len()) as int, tag, tag2);
}

/// Equal encodings come from equal payloads.
pub proof fn lemma_payload_unique(
    uuid: u128,
    index: u32,
    proof: ProofView,
    uuid2: u128,
    index2: u32,
    proof2: ProofView,
)
    requires
        proof_fits(proof),
        proof_fits(proof2),
        enc_payload(uuid, index, proof) == enc_payload(uuid2, index2, proof2),
    ensures
        uuid == uuid2,
        index == index2,
        proof == proof2,
{
    let s = enc_payload(uuid, index, proof);
    lemma_starts_with_whole(s, enc_payload(uuid, index, proof));
    lemma_starts_with_whole(s, enc_payload(uuid2, index2, proof2));
    lemma_payload_parts(s, uuid, index, proof);
    lemma_payload_parts(s, uuid2, index2, proof2);
    lemma_uuid_at(s, 0, uuid, uuid2);
    lemma_u32_at(s, 24, index, index2);
    lemma_proof_at(s, 28, proof, proof2);
}

/// Equal encodings come from equal seed payloads.
pub proof fn lemma_payload_seed_unique(
    uuid: u128,
    index: u32,
    ps: ProofSeed,
    uuid2: u128,
    index2: u32,
    ps2: ProofSeed,
)
    requires
        enc_payload_seed(uuid, index, ps) == enc_payload_seed(uuid2, index2, ps2),
    ensures
        uuid == uuid2,
        index == index2,
        ps == ps2,
{
    let s = enc_payload_seed(uuid, index, ps);
    lemma_starts_with_whole(s, enc_payload_seed(uuid, index, ps));
    lemma_starts_with_whole(s, enc_payload_seed(uuid2, index2, ps2));
    lemma_payload_seed_parts(s, uuid, index, ps);
    lemma_payload_seed_parts(s, uuid2, index2, ps2);
    lemma_uuid_at(s, 0, uuid, uuid2);
    lemma_u32_at(s, 24, index, index2);
    lemma_u64_at(s, 28, ps.seed, ps2.seed);
    lemma_u16_at(s, 36, ps.x_len, ps2.x_len);
    lemma_u16_at(s, 38, ps.w_len, ps2.w_len);
    lemma_u16_at(s, 40, ps.z_len, ps2.z_len);
    lemma_u16_at(s, 42, ps.c_len, ps2.c_len);
    lemma_u64_at(s, 44, ps.q, ps2.q);
}

/// Equal encodings come from equal answers.
pub proof fn lemma_query_res_unique(r: QueryRes, r2: QueryRes)
    requires
        enc_query_res(r) == enc_query_res(r2),
    ensures
        r == r2,
{
    let s = enc_query_res(r);
    lemma_starts_with_whole(s, enc_query_res(r));
    lemma_starts_with_whole(s, enc_query_res(r2));
    lemma_query_res_parts(s, r);
    lemma_query_res_parts(s, r2);
    lemma_u64_at(s, 0, r.a, r2.a);
    lemma_u64_at(s, 8, r.a1, r2.a1);
    lemma_u64_at(s, 16, r.d1, r2.d1);
    lemma_u64_at(s, 24, r.a2, r2.a2);
    lemma_u64_at(s, 32, r.d2, r2.d2);
    lemma_u64_at(s, 40, r.b, r2.b);
    lemma_u64_at(s, 48, r.q, r2.q);
}

/// Equal encodings come from equal pairs of sealed submissions.
pub proof fn lemma_inner_unique(left: Seq<u8>, right: Seq<u8>, left2: Seq<u8>, right2: Seq<u8>)
    requires
        left.len() <= u64::MAX && right.len() <= u64::MAX,
        left2.len() <= u64::MAX && right2.len() <= u64::MAX,
        enc_inner(left, right) == enc_inner(left2, right2),
    ensures
        left == left2,
        right == right2,
{
    let s = enc_inner(left, right);
    lemma_starts_with_whole(s, enc_inner(left, right));
    lemma_starts_with_whole(s, enc_inner(left2, right2));
    lemma_starts_with_concat(s, 0, enc_bytes(left), enc_bytes(right));
    lemma_starts_with_concat(s, 0, enc_bytes(left2), enc_bytes(right2));
    lemma_bytes_at(s, 0, left, left2);
    lemma_bytes_at(s, enc_bytes(left).len() as int, right, right2);
}

} // verus!
