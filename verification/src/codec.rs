//! The log codec: a self-describing binary document per mutation record.
//!
//! Each record is one document: a little-endian 32-bit total length, one
//! element whose name tags the record kind (`Set` carries an array of two
//! strings, `Rm` a single string), and a terminating NUL. Strings are
//! length-prefixed UTF-8 with a trailing NUL. A log is a raw concatenation
//! of such documents with no extra framing, so a reader can always
//! resynchronize by decoding sequentially from the start.

use vstd::prelude::*;
use vstd::slice::slice_to_vec;
use vstd::utf8::{
    decode_utf8, decode_utf8_encode_utf8, encode_utf8, encode_utf8_decode_utf8,
    encode_utf8_valid_utf8, valid_utf8,
};

use crate::records::{CommandModel, KvCommand};

verus! {

/// Longest UTF-8 encoding, in bytes, that a key or a value may have; keeps
/// every document length inside the format's signed 32-bit length field.
pub const MAX_STR_BYTES: usize = 0x0FFF_FFFF;

/// The four little-endian bytes of a 32-bit length field.
pub open spec fn u32_le(n: u32) -> Seq<u8> {
    seq![
        (n % 0x100) as u8,
        ((n / 0x100) % 0x100) as u8,
        ((n / 0x10000) % 0x100) as u8,
        ((n / 0x1000000) % 0x100) as u8,
    ]
}

/// The document encoding a `Set` record whose key and value have the given
/// UTF-8 bytes: total length, an array element named "Set" holding two
/// length-prefixed strings named "0" and "1", and the closing NULs.
pub open spec fn enc_set_b(kb: Seq<u8>, vb: Seq<u8>) -> Seq<u8> {
    u32_le((31 + kb.len() + vb.len()) as u32) + seq![4u8, 83u8, 101u8, 116u8, 0u8]
        + u32_le((21 + kb.len() + vb.len()) as u32) + seq![2u8, 48u8, 0u8]
        + u32_le((kb.len() + 1) as u32) + kb + seq![0u8] + seq![2u8, 49u8, 0u8]
        + u32_le((vb.len() + 1) as u32) + vb + seq![0u8] + seq![0u8, 0u8]
}

/// The document encoding a `Rm` record whose key has the given UTF-8 bytes:
/// total length, a string element named "Rm", and the closing NUL.
pub open spec fn enc_rm_b(kb: Seq<u8>) -> Seq<u8> {
    u32_le((14 + kb.len()) as u32) + seq![2u8, 82u8, 109u8, 0u8]
        + u32_le((kb.len() + 1) as u32) + kb + seq![0u8] + seq![0u8]
}

/// A record's strings stay within the format's size limits.
pub open spec fn cmd_fits(c: CommandModel) -> bool {
    match c {
        CommandModel::Put(k, v) => encode_utf8(k).len() <= MAX_STR_BYTES
            && encode_utf8(v).len() <= MAX_STR_BYTES,
        CommandModel::Rm(k) => encode_utf8(k).len() <= MAX_STR_BYTES,
    }
}

/// The serialized bytes of one mutation record.
pub open spec fn enc_record(c: CommandModel) -> Seq<u8> {
    match c {
        CommandModel::Put(k, v) => enc_set_b(encode_utf8(k), encode_utf8(v)),
        CommandModel::Rm(k) => enc_rm_b(encode_utf8(k)),
    }
}

/// The serialized bytes of a whole record sequence, in log order.
pub open spec fn enc_cat(recs: Seq<CommandModel>) -> Seq<u8>
    decreases recs.len(),
{
    if recs.len() == 0 {
        Seq::empty()
    } else {
        enc_cat(recs.drop_last()) + enc_record(recs.last())
    }
}

/// The bytes at `off` are exactly the encoding of record `c`.
pub open spec fn can_decode(bytes: Seq<u8>, off: int, c: CommandModel) -> bool {
    &&& cmd_fits(c)
    &&& 0 <= off
    &&& off + enc_record(c).len() <= bytes.len()
    &&& bytes.subrange(off, off + enc_record(c).len() as int) == enc_record(c)
}

/// The bytes are exactly the concatenated encodings of the record sequence.
pub open spec fn parses_to(bytes: Seq<u8>, recs: Seq<CommandModel>) -> bool {
    &&& bytes == enc_cat(recs)
    &&& forall|i: int| 0 <= i < recs.len() ==> cmd_fits(#[trigger] recs[i])
}

/// Equal length fields have equal bytes, and conversely.
pub proof fn lemma_u32_le_inj(a: u32, b: u32)
    requires
        u32_le(a) == u32_le(b),
    ensures
        a == b,
{
    assert(a % 0x100 == b % 0x100) by {
        assert(u32_le(a)[0] == u32_le(b)[0]);
    }
    assert((a / 0x100) % 0x100 == (b / 0x100) % 0x100) by {
        assert(u32_le(a)[1] == u32_le(b)[1]);
    }
    assert((a / 0x10000) % 0x100 == (b / 0x10000) % 0x100) by {
        assert(u32_le(a)[2] == u32_le(b)[2]);
    }
    assert((a / 0x1000000) % 0x100 == (b / 0x1000000) % 0x100) by {
        assert(u32_le(a)[3] == u32_le(b)[3]);
    }
    assert(a == b) by (bit_vector)
        requires
            a % 0x100 == b % 0x100,
            (a / 0x100) % 0x100 == (b / 0x100) % 0x100,
            (a / 0x10000) % 0x100 == (b / 0x10000) % 0x100,
            (a / 0x1000000) % 0x100 == (b / 0x1000000) % 0x100,
    ;
}

/// A subrange splits at any interior point.
proof fn lemma_subrange_split(b: Seq<u8>, x: int, y: int, z: int)
    requires
        0 <= x <= y <= z <= b.len(),
    ensures
        b.subrange(x, z) == b.subrange(x, y) + b.subrange(y, z),
{
    assert(b.subrange(x, z) =~= b.subrange(x, y) + b.subrange(y, z));
}

/// A subrange of a subrange is a subrange of the original.
proof fn lemma_subrange_nest(b: Seq<u8>, off: int, n: int, x: int, y: int)
    requires
        0 <= off,
        off + n <= b.len(),
        0 <= x <= y <= n,
    ensures
        b.subrange(off, off + n).subrange(x, y) == b.subrange(off + x, off + y),
{
    assert(b.subrange(off, off + n).subrange(x, y) =~= b.subrange(off + x, off + y));
}

/// Where each field of a `Set` document lies inside its bytes.
#[verifier::rlimit(100)]
proof fn lemma_enc_set_shape(kb: Seq<u8>, vb: Seq<u8>)
    ensures
        ({
            let e = enc_set_b(kb, vb);
            let kl = kb.len() as int;
            let vl = vb.len() as int;
            &&& e.len() == 31 + kl + vl
            &&& e.subrange(0, 4) == u32_le((31 + kl + vl) as u32)
            &&& e.subrange(4, 9) == seq![4u8, 83u8, 101u8, 116u8, 0u8]
            &&& e.subrange(9, 13) == u32_le((21 + kl + vl) as u32)
            &&& e.subrange(13, 16) == seq![2u8, 48u8, 0u8]
            &&& e.subrange(16, 20) == u32_le((kl + 1) as u32)
            &&& e.subrange(20, 20 + kl) == kb
            &&& e.subrange(20 + kl, 21 + kl) == seq![0u8]
            &&& e.subrange(21 + kl, 24 + kl) == seq![2u8, 49u8, 0u8]
            &&& e.subrange(24 + kl, 28 + kl) == u32_le((vl + 1) as u32)
            &&& e.subrange(28 + kl, 28 + kl + vl) == vb
            &&& e.subrange(28 + kl + vl, 31 + kl + vl) == seq![0u8, 0u8, 0u8]
        }),
{
    let e = enc_set_b(kb, vb);
    let kl = kb.len() as int;
    let vl = vb.len() as int;
    assert(e.subrange(0, 4) =~= u32_le((31 + kl + vl) as u32));
    assert(e.subrange(4, 9) =~= seq![4u8, 83u8, 101u8, 116u8, 0u8]);
    assert(e.subrange(9, 13) =~= u32_le((21 + kl + vl) as u32));
    assert(e.subrange(13, 16) =~= seq![2u8, 48u8, 0u8]);
    assert(e.subrange(16, 20) =~= u32_le((kl + 1) as u32));
    assert(e.subrange(20, 20 + kl) =~= kb);
    assert(e.subrange(20 + kl, 21 + kl) =~= seq![0u8]);
    assert(e.subrange(21 + kl, 24 + kl) =~= seq![2u8, 49u8, 0u8]);
    assert(e.subrange(24 + kl, 28 + kl) =~= u32_le((vl + 1) as u32));
    assert(e.subrange(28 + kl, 28 + kl + vl) =~= vb);
    assert(e.subrange(28 + kl + vl, 31 + kl + vl) =~= seq![0u8, 0u8, 0u8]);
}

/// Where each field of a `Rm` document lies inside its bytes.
proof fn lemma_enc_rm_shape(kb: Seq<u8>)
    ensures
        ({
            let e = enc_rm_b(kb);
            let kl = kb.len() as int;
            &&& e.len() == 14 + kl
            &&& e.subrange(0, 4) == u32_le((14 + kl) as u32)
            &&& e.subrange(4, 8) == seq![2u8, 82u8, 109u8, 0u8]
            &&& e.subrange(8, 12) == u32_le((kl + 1) as u32)
            &&& e.subrange(12, 12 + kl) == kb
            &&& e.subrange(12 + kl, 14 + kl) == seq![0u8, 0u8]
        }),
{
    let e = enc_rm_b(kb);
    let kl = kb.len() as int;
    assert(e.subrange(0, 4) =~= u32_le((14 + kl) as u32));
    assert(e.subrange(4, 8) =~= seq![2u8, 82u8, 109u8, 0u8]);
    assert(e.subrange(8, 12) =~= u32_le((kl + 1) as u32));
    assert(e.subrange(12, 12 + kl) =~= kb);
    assert(e.subrange(12 + kl, 14 + kl) =~= seq![0u8, 0u8]);
}

/// What the bytes under any decodable record must hold: its length field,
/// its tag byte, and its bounds.
proof fn lemma_candidate_header(bytes: Seq<u8>, off: int, c: CommandModel)
    requires
        can_decode(bytes, off, c),
    ensures
        14 <= enc_record(c).len() <= 31 + 2 * MAX_STR_BYTES,
        off + enc_record(c).len() <= bytes.len(),
        bytes.subrange(off, off + 4) == u32_le(enc_record(c).len() as u32),
        bytes[off + 4] == (if c matches CommandModel::Put(_, _) {
            4u8
        } else {
            2u8
        }),
{
    let e = enc_record(c);
    let n = e.len() as int;
    match c {
        CommandModel::Put(k, v) => {
            lemma_enc_set_shape(encode_utf8(k), encode_utf8(v));
        }
        CommandModel::Rm(k) => {
            lemma_enc_rm_shape(encode_utf8(k));
        }
    }
    lemma_subrange_nest(bytes, off, n, 0, 4);
    lemma_subrange_nest(bytes, off, n, 4, 9);
    assert(bytes[off + 4] == bytes.subrange(off + 4, off + 9)[0]);
}

/// What the bytes under a decodable `Set` record must hold, field by field.
proof fn lemma_candidate_set_fields(bytes: Seq<u8>, off: int, k: Seq<char>, v: Seq<char>)
    requires
        can_decode(bytes, off, CommandModel::Put(k, v)),
    ensures
        ({
            let kb = encode_utf8(k);
            let vb = encode_utf8(v);
            let kl = kb.len() as int;
            let vl = vb.len() as int;
            let n = 31 + kl + vl;
            &&& enc_record(CommandModel::Put(k, v)).len() == n
            &&& kl <= MAX_STR_BYTES && vl <= MAX_STR_BYTES
            &&& off + n <= bytes.len()
            &&& bytes.subrange(off, off + 4) == u32_le(n as u32)
            &&& bytes.subrange(off + 4, off + 9) == seq![4u8, 83u8, 101u8, 116u8, 0u8]
            &&& bytes.subrange(off + 9, off + 13) == u32_le((n - 10) as u32)
            &&& bytes.subrange(off + 13, off + 16) == seq![2u8, 48u8, 0u8]
            &&& bytes.subrange(off + 16, off + 20) == u32_le((kl + 1) as u32)
            &&& bytes.subrange(off + 20, off + 20 + kl) == kb
            &&& bytes.subrange(off + 20 + kl, off + 21 + kl) == seq![0u8]
            &&& bytes.subrange(off + 21 + kl, off + 24 + kl) == seq![2u8, 49u8, 0u8]
            &&& bytes.subrange(off + 24 + kl, off + 28 + kl) == u32_le((vl + 1) as u32)
            &&& bytes.subrange(off + 28 + kl, off + 28 + kl + vl) == vb
            &&& bytes.subrange(off + 28 + kl + vl, off + n) == seq![0u8, 0u8, 0u8]
        }),
{
    let kb = encode_utf8(k);
    let vb = encode_utf8(v);
    let kl = kb.len() as int;
    let vl = vb.len() as int;
    let n = 31 + kl + vl;
    lemma_enc_set_shape(kb, vb);
    lemma_subrange_nest(bytes, off, n, 0, 4);
    lemma_subrange_nest(bytes, off, n, 4, 9);
    lemma_subrange_nest(bytes, off, n, 9, 13);
    lemma_subrange_nest(bytes, off, n, 13, 16);
    lemma_subrange_nest(bytes, off, n, 16, 20);
    lemma_subrange_nest(bytes, off, n, 20, 20 + kl);
    lemma_subrange_nest(bytes, off, n, 20 + kl, 21 + kl);
    lemma_subrange_nest(bytes, off, n, 21 + kl, 24 + kl);
    lemma_subrange_nest(bytes, off, n, 24 + kl, 28 + kl);
    lemma_subrange_nest(bytes, off, n, 28 + kl, 28 + kl + vl);
    lemma_subrange_nest(bytes, off, n, 28 + kl + vl, n);
}

/// What the bytes under a decodable `Rm` record must hold, field by field.
proof fn lemma_candidate_rm_fields(bytes: Seq<u8>, off: int, k: Seq<char>)
    requires
        can_decode(bytes, off, CommandModel::Rm(k)),
    ensures
        ({
            let kb = encode_utf8(k);
            let kl = kb.len() as int;
            let n = 14 + kl;
            &&& enc_record(CommandModel::Rm(k)).len() == n
            &&& kl <= MAX_STR_BYTES
            &&& off + n <= bytes.len()
            &&& bytes.subrange(off, off + 4) == u32_le(n as u32)
            &&& bytes.subrange(off + 4, off + 8) == seq![2u8, 82u8, 109u8, 0u8]
            &&& bytes.subrange(off + 8, off + 12) == u32_le((kl + 1) as u32)
            &&& bytes.subrange(off + 12, off + 12 + kl) == kb
            &&& bytes.subrange(off + 12 + kl, off + n) == seq![0u8, 0u8]
        }),
{
    let kb = encode_utf8(k);
    let kl = kb.len() as int;
    let n = 14 + kl;
    lemma_enc_rm_shape(kb);
    lemma_subrange_nest(bytes, off, n, 0, 4);
    lemma_subrange_nest(bytes, off, n, 4, 8);
    lemma_subrange_nest(bytes, off, n, 8, 12);
    lemma_subrange_nest(bytes, off, n, 12, 12 + kl);
    lemma_subrange_nest(bytes, off, n, 12 + kl, n);
}

/// Every record's encoding has at least the fixed document overhead.
pub proof fn lemma_enc_record_len(c: CommandModel)
    ensures
        enc_record(c).len() >= 14,
{
}

/// At one offset of one byte sequence, at most one record can be decoded:
/// the length field, the tag, and the string fields pin it down.
pub proof fn lemma_can_decode_unique(bytes: Seq<u8>, off: int, c1: CommandModel, c2: CommandModel)
    requires
        can_decode(bytes, off, c1),
        can_decode(bytes, off, c2),
    ensures
        c1 == c2,
{
    lemma_candidate_header(bytes, off, c1);
    lemma_candidate_header(bytes, off, c2);
    lemma_u32_le_inj(enc_record(c1).len() as u32, enc_record(c2).len() as u32);
    let n = enc_record(c1).len() as int;
    match c1 {
        CommandModel::Put(k1, v1) => {
            let k2 = c2->Put_0;
            let v2 = c2->Put_1;
            lemma_candidate_set_fields(bytes, off, k1, v1);
            lemma_candidate_set_fields(bytes, off, k2, v2);
            lemma_u32_le_inj(
                (encode_utf8(k1).len() + 1) as u32,
                (encode_utf8(k2).len() + 1) as u32,
            );
            encode_utf8_decode_utf8(k1);
            encode_utf8_decode_utf8(k2);
            encode_utf8_decode_utf8(v1);
            encode_utf8_decode_utf8(v2);
        }
        CommandModel::Rm(k1) => {
            let k2 = c2->Rm_0;
            lemma_candidate_rm_fields(bytes, off, k1);
            lemma_candidate_rm_fields(bytes, off, k2);
            encode_utf8_decode_utf8(k1);
            encode_utf8_decode_utf8(k2);
        }
    }
}

/// A record decodable inside a prefix is decodable in the whole sequence.
pub proof fn lemma_can_decode_extend(bytes: Seq<u8>, cur: int, off: int, c: CommandModel)
    requires
        0 <= cur <= bytes.len(),
        can_decode(bytes.subrange(0, cur), off, c),
    ensures
        can_decode(bytes, off, c),
{
    let e = enc_record(c);
    assert(bytes.subrange(off, off + e.len()) =~= bytes.subrange(0, cur).subrange(
        off,
        off + e.len(),
    ));
}

/// One step of a parse: the next record of the sequence can be decoded
/// right after the bytes of the records before it.
#[verifier::rlimit(100)]
pub proof fn lemma_parses_to_step(bytes: Seq<u8>, recs: Seq<CommandModel>, j: int)
    requires
        parses_to(bytes, recs),
        0 <= j < recs.len(),
    ensures
        can_decode(bytes, enc_cat(recs.take(j)).len() as int, recs[j]),
        enc_cat(recs.take(j + 1)).len() == enc_cat(recs.take(j)).len() + enc_record(
            recs[j],
        ).len(),
{
    lemma_enc_cat_take_succ(recs, j);
    lemma_enc_cat_prefix(recs, j);
    lemma_enc_cat_prefix(recs, j + 1);
    lemma_prefix_chunk(bytes, enc_cat(recs.take(j)), enc_record(recs[j]));
}

/// In a sequence that starts with `x` followed by `e`, the bytes right
/// after `x` are `e`.
proof fn lemma_prefix_chunk(whole: Seq<u8>, x: Seq<u8>, e: Seq<u8>)
    requires
        x.len() + e.len() <= whole.len(),
        x == whole.subrange(0, x.len() as int),
        x + e == whole.subrange(0, (x.len() + e.len()) as int),
    ensures
        e == whole.subrange(x.len() as int, (x.len() + e.len()) as int),
{
    assert forall|i: int| 0 <= i < e.len() implies e[i] == whole[x.len() + i] by {
        assert((x + e)[x.len() + i] == e[i]);
        assert(whole.subrange(0, (x.len() + e.len()) as int)[x.len() + i] == whole[x.len()
            + i]);
    }
    assert(e =~= whole.subrange(x.len() as int, (x.len() + e.len()) as int));
}

/// Appending one record extends the serialized log by its encoding.
pub proof fn lemma_enc_cat_take_succ(recs: Seq<CommandModel>, i: int)
    requires
        0 <= i < recs.len(),
    ensures
        enc_cat(recs.take(i + 1)) == enc_cat(recs.take(i)) + enc_record(recs[i]),
{
    assert(recs.take(i + 1).drop_last() =~= recs.take(i));
    assert(recs.take(i + 1).last() == recs[i]);
}

/// The serialized bytes of the first records are a prefix of the whole.
pub proof fn lemma_enc_cat_prefix(recs: Seq<CommandModel>, i: int)
    requires
        0 <= i <= recs.len(),
    ensures
        enc_cat(recs.take(i)).len() <= enc_cat(recs).len(),
        enc_cat(recs.take(i)) == enc_cat(recs).subrange(0, enc_cat(recs.take(i)).len() as int),
    decreases recs.len() - i,
{
    if i == recs.len() {
        assert(recs.take(i) =~= recs);
        assert(enc_cat(recs.take(i)) =~= enc_cat(recs).subrange(
            0,
            enc_cat(recs.take(i)).len() as int,
        ));
    } else {
        lemma_enc_cat_take_succ(recs, i);
        lemma_enc_cat_prefix(recs, i + 1);
        assert(enc_cat(recs.take(i)) =~= enc_cat(recs).subrange(
            0,
            enc_cat(recs.take(i)).len() as int,
        ));
    }
}

/// Two parses of one byte sequence agree on their first `j` records.
proof fn lemma_parse_align(
    bytes: Seq<u8>,
    cur: int,
    hist: Seq<CommandModel>,
    recs: Seq<CommandModel>,
    j: int,
)
    requires
        0 <= cur <= bytes.len(),
        parses_to(bytes.subrange(0, cur), hist),
        parses_to(bytes, recs),
        0 <= j <= hist.len(),
    ensures
        j <= recs.len(),
        hist.take(j) == recs.take(j),
    decreases j,
{
    if j == 0 {
        assert(hist.take(0) =~= recs.take(0));
    } else {
        lemma_parse_align(bytes, cur, hist, recs, j - 1);
        lemma_parses_to_step(bytes.subrange(0, cur), hist, j - 1);
        lemma_enc_cat_prefix(hist, j);
        let lo = enc_cat(hist.take(j - 1)).len() as int;
        lemma_can_decode_extend(bytes, cur, lo, hist[j - 1]);
        if j - 1 < recs.len() {
            lemma_parses_to_step(bytes, recs, j - 1);
            assert(enc_cat(recs.take(j - 1)).len() as int == lo);
            lemma_can_decode_unique(bytes, lo, hist[j - 1], recs[j - 1]);
            assert(hist.take(j) =~= recs.take(j));
        } else {
            assert(recs.take(j - 1) =~= recs);
            lemma_enc_record_len(hist[j - 1]);
            assert(false);
        }
    }
}

/// A parse of a prefix of the log is a prefix of any parse of the log.
pub proof fn lemma_parses_prefix(
    bytes: Seq<u8>,
    cur: int,
    hist: Seq<CommandModel>,
    recs: Seq<CommandModel>,
)
    requires
        0 <= cur <= bytes.len(),
        parses_to(bytes.subrange(0, cur), hist),
        parses_to(bytes, recs),
    ensures
        hist.len() <= recs.len(),
        hist == recs.take(hist.len() as int),
{
    lemma_parse_align(bytes, cur, hist, recs, hist.len() as int);
    assert(hist.take(hist.len() as int) =~= hist);
}

/// Folding one more decodable record extends a parse of the log's prefix.
pub proof fn lemma_prefix_extend(
    bytes: Seq<u8>,
    cur: int,
    end: int,
    hist: Seq<CommandModel>,
    c: CommandModel,
)
    requires
        0 <= cur <= end <= bytes.len(),
        parses_to(bytes.subrange(0, cur), hist),
        can_decode(bytes, cur, c),
        end == cur + enc_record(c).len(),
    ensures
        parses_to(bytes.subrange(0, end), hist.push(c)),
{
    assert(hist.push(c).drop_last() =~= hist);
    assert(hist.push(c).last() == c);
    assert(bytes.subrange(0, end) =~= bytes.subrange(0, cur) + bytes.subrange(cur, end));
    assert(forall|i: int| 0 <= i < hist.len() ==> hist.push(c)[i] == hist[i]);
}

/// Relies on `String::from_utf8`: it succeeds exactly on byte sequences
/// that are valid UTF-8, and returns the character sequence they encode.
#[verifier::external_body]
fn bytes_to_string(b: Vec<u8>) -> (r: Option<String>)
    ensures
        r is Some <==> valid_utf8(b@),
        r matches Some(s) ==> s@ == decode_utf8(b@),
{
    String::from_utf8(b).ok()
}

/// The UTF-8 bytes of a string.
fn str_bytes(s: &String) -> (r: Vec<u8>)
    ensures
        r@ == encode_utf8(s@),
{
    slice_to_vec(s.as_str().as_bytes())
}

/// Append a 32-bit length field in little-endian order.
fn push_u32_le(out: &mut Vec<u8>, n: u32)
    ensures
        final(out)@ == old(out)@ + u32_le(n),
{
    out.push((n % 0x100) as u8);
    out.push(((n / 0x100) % 0x100) as u8);
    out.push(((n / 0x10000) % 0x100) as u8);
    out.push(((n / 0x1000000) % 0x100) as u8);
    proof {
        assert(out@ =~= old(out)@ + u32_le(n));
    }
}

/// Append a copy of the given bytes.
pub(crate) fn push_bytes(out: &mut Vec<u8>, b: &Vec<u8>)
    ensures
        final(out)@ == old(out)@ + b@,
{
    let mut i: usize = 0;
    while i < b.len()
        invariant
            i <= b@.len(),
            out@ == old(out)@ + b@.subrange(0, i as int),
        decreases b@.len() - i,
    {
        out.push(b[i]);
        i = i + 1;
        proof {
            assert(out@ =~= old(out)@ + b@.subrange(0, i as int));
        }
    }
    proof {
        assert(b@.subrange(0, b@.len() as int) =~= b@);
    }
}

/// Build the document for a `Set` record from its strings' UTF-8 bytes.
fn build_set_doc(kb: &Vec<u8>, vb: &Vec<u8>) -> (out: Vec<u8>)
    requires
        kb@.len() <= MAX_STR_BYTES,
        vb@.len() <= MAX_STR_BYTES,
    ensures
        out@ == enc_set_b(kb@, vb@),
{
    let klen: usize = kb.len();
    let vlen: usize = vb.len();
    let mut out: Vec<u8> = Vec::new();
    push_u32_le(&mut out, (31 + klen + vlen) as u32);
    out.push(4);
    out.push(83);
    out.push(101);
    out.push(116);
    out.push(0);
    let ghost p1 = u32_le((31 + kb@.len() + vb@.len()) as u32) + seq![
        4u8,
        83u8,
        101u8,
        116u8,
        0u8,
    ];
    proof {
        assert(out@ =~= p1);
    }
    push_u32_le(&mut out, (21 + klen + vlen) as u32);
    out.push(2);
    out.push(48);
    out.push(0);
    let ghost p2 = p1 + u32_le((21 + kb@.len() + vb@.len()) as u32) + seq![2u8, 48u8, 0u8];
    proof {
        assert(out@ =~= p2);
    }
    push_u32_le(&mut out, (klen + 1) as u32);
    push_bytes(&mut out, kb);
    out.push(0);
    out.push(2);
    out.push(49);
    out.push(0);
    let ghost p3 = p2 + u32_le((kb@.len() + 1) as u32) + kb@ + seq![0u8] + seq![2u8, 49u8, 0u8];
    proof {
        assert(out@ =~= p3);
    }
    push_u32_le(&mut out, (vlen + 1) as u32);
    push_bytes(&mut out, vb);
    out.push(0);
    out.push(0);
    out.push(0);
    proof {
        assert(out@ =~= p3 + u32_le((vb@.len() + 1) as u32) + vb@ + seq![0u8] + seq![0u8, 0u8]);
        assert(out@ =~= enc_set_b(kb@, vb@));
    }
    out
}

/// Build the document for a `Rm` record from its key's UTF-8 bytes.
fn build_rm_doc(kb: &Vec<u8>) -> (out: Vec<u8>)
    requires
        kb@.len() <= MAX_STR_BYTES,
    ensures
        out@ == enc_rm_b(kb@),
{
    let klen: usize = kb.len();
    let mut out: Vec<u8> = Vec::new();
    push_u32_le(&mut out, (14 + klen) as u32);
    out.push(2);
    out.push(82);
    out.push(109);
    out.push(0);
    let ghost p1 = u32_le((14 + kb@.len()) as u32) + seq![2u8, 82u8, 109u8, 0u8];
    proof {
        assert(out@ =~= p1);
    }
    push_u32_le(&mut out, (klen + 1) as u32);
    push_bytes(&mut out, kb);
    out.push(0);
    out.push(0);
    proof {
        assert(out@ =~= p1 + u32_le((kb@.len() + 1) as u32) + kb@ + seq![0u8] + seq![0u8]);
        assert(out@ =~= enc_rm_b(kb@));
    }
    out
}

/// Bytes that hold every field of a `Set` document, at its exact places,
/// are that document.
proof fn lemma_set_assemble(bytes: Seq<u8>, off: int, kb: Seq<u8>, vb: Seq<u8>)
    requires
        0 <= off,
        off + 31 + kb.len() + vb.len() <= bytes.len(),
        bytes.subrange(off, off + 4) == u32_le((31 + kb.len() + vb.len()) as u32),
        bytes.subrange(off + 4, off + 9) == seq![4u8, 83u8, 101u8, 116u8, 0u8],
        bytes.subrange(off + 9, off + 13) == u32_le((21 + kb.len() + vb.len()) as u32),
        bytes.subrange(off + 13, off + 16) == seq![2u8, 48u8, 0u8],
        bytes.subrange(off + 16, off + 20) == u32_le((kb.len() + 1) as u32),
        bytes.subrange(off + 20, off + 20 + kb.len()) == kb,
        bytes.subrange(off + 20 + kb.len(), off + 21 + kb.len()) == seq![0u8],
        bytes.subrange(off + 21 + kb.len(), off + 24 + kb.len()) == seq![2u8, 49u8, 0u8],
        bytes.subrange(off + 24 + kb.len(), off + 28 + kb.len()) == u32_le((vb.len() + 1) as u32),
        bytes.subrange(off + 28 + kb.len(), off + 28 + kb.len() + vb.len()) == vb,
        bytes.subrange(
            off + 28 + kb.len() + vb.len(),
            off + 29 + kb.len() + vb.len(),
        ) == seq![0u8],
        bytes.subrange(
            off + 29 + kb.len() + vb.len(),
            off + 31 + kb.len() + vb.len(),
        ) == seq![0u8, 0u8],
    ensures
        bytes.subrange(off, off + 31 + kb.len() + vb.len()) == enc_set_b(kb, vb),
{
    let kl = kb.len() as int;
    let vl = vb.len() as int;
    lemma_subrange_split(bytes, off, off + 29 + kl + vl, off + 31 + kl + vl);
    lemma_subrange_split(bytes, off, off + 28 + kl + vl, off + 29 + kl + vl);
    lemma_subrange_split(bytes, off, off + 28 + kl, off + 28 + kl + vl);
    lemma_subrange_split(bytes, off, off + 24 + kl, off + 28 + kl);
    lemma_subrange_split(bytes, off, off + 21 + kl, off + 24 + kl);
    lemma_subrange_split(bytes, off, off + 20 + kl, off + 21 + kl);
    lemma_subrange_split(bytes, off, off + 20, off + 20 + kl);
    lemma_subrange_split(bytes, off, off + 16, off + 20);
    lemma_subrange_split(bytes, off, off + 13, off + 16);
    lemma_subrange_split(bytes, off, off + 9, off + 13);
    lemma_subrange_split(bytes, off, off + 4, off + 9);
}

/// Bytes that hold every field of a `Rm` document, at its exact places,
/// are that document.
proof fn lemma_rm_assemble(bytes: Seq<u8>, off: int, kb: Seq<u8>)
    requires
        0 <= off,
        off + 14 + kb.len() <= bytes.len(),
        bytes.subrange(off, off + 4) == u32_le((14 + kb.len()) as u32),
        bytes.subrange(off + 4, off + 8) == seq![2u8, 82u8, 109u8, 0u8],
        bytes.subrange(off + 8, off + 12) == u32_le((kb.len() + 1) as u32),
        bytes.subrange(off + 12, off + 12 + kb.len()) == kb,
        bytes.subrange(off + 12 + kb.len(), off + 13 + kb.len()) == seq![0u8],
        bytes.subrange(off + 13 + kb.len(), off + 14 + kb.len()) == seq![0u8],
    ensures
        bytes.subrange(off, off + 14 + kb.len()) == enc_rm_b(kb),
{
    let kl = kb.len() as int;
    lemma_subrange_split(bytes, off, off + 13 + kl, off + 14 + kl);
    lemma_subrange_split(bytes, off, off + 12 + kl, off + 13 + kl);
    lemma_subrange_split(bytes, off, off + 12, off + 12 + kl);
    lemma_subrange_split(bytes, off, off + 8, off + 12);
    lemma_subrange_split(bytes, off, off + 4, off + 8);
}

/// Read a 32-bit little-endian length field.
fn read_u32_le(b: &Vec<u8>, off: usize) -> (r: Option<u32>)
    ensures
        r is Some <==> off + 4 <= b@.len(),
        r matches Some(n) ==> u32_le(n) == b@.subrange(off as int, off as int + 4),
{
    if off < b.len() && b.len() - off >= 4 {
        let c0: u32 = b[off] as u32;
        let c1: u32 = b[off + 1] as u32;
        let c2: u32 = b[off + 2] as u32;
        let c3: u32 = b[off + 3] as u32;
        let n: u32 = c0 + 0x100 * c1 + 0x10000 * c2 + 0x1000000 * c3;
        proof {
            assert(n % 0x100 == c0 && (n / 0x100) % 0x100 == c1 && (n / 0x10000) % 0x100 == c2
                && (n / 0x1000000) % 0x100 == c3) by (bit_vector)
                requires
                    n == c0 + 0x100 * c1 + 0x10000 * c2 + 0x1000000 * c3,
                    c0 < 0x100,
                    c1 < 0x100,
                    c2 < 0x100,
                    c3 < 0x100,
            ;
            assert(u32_le(n) =~= b@.subrange(off as int, off as int + 4));
        }
        Some(n)
    } else {
        None
    }
}

/// Copy `count` bytes starting at `start`.
fn copy_range(b: &Vec<u8>, start: usize, count: usize) -> (r: Vec<u8>)
    requires
        start + count <= b@.len(),
    ensures
        r@ == b@.subrange(start as int, start as int + count as int),
{
    let blen: usize = b.len();
    let mut out: Vec<u8> = Vec::new();
    let mut i: usize = 0;
    while i < count
        invariant
            i <= count,
            start + count <= blen,
            blen == b@.len(),
            out@ == b@.subrange(start as int, start as int + i as int),
        decreases count - i,
    {
        out.push(b[start + i]);
        i = i + 1;
        proof {
            assert(out@ =~= b@.subrange(start as int, start as int + i as int));
        }
    }
    out
}

/// Any record decodable under a length field `n` and the `Rm` tag is a
/// `Rm` record laid out field by field under those bytes.
proof fn lemma_rm_candidate_unique(bytes: Seq<u8>, off: int, n: int, c: CommandModel)
    requires
        can_decode(bytes, off, c),
        14 <= n <= 0xFFFFFFFF,
        bytes.subrange(off, off + 4) == u32_le(n as u32),
        bytes[off + 4] == 2u8,
    ensures
        c matches CommandModel::Rm(k) && ({
            let kb = encode_utf8(k);
            let kl = kb.len() as int;
            &&& kl == n - 14
            &&& kl <= MAX_STR_BYTES
            &&& valid_utf8(kb)
            &&& bytes[off + 5] == 82u8 && bytes[off + 6] == 109u8 && bytes[off + 7] == 0u8
            &&& bytes.subrange(off + 8, off + 12) == u32_le((kl + 1) as u32)
            &&& bytes.subrange(off + 12, off + 12 + kl) == kb
            &&& bytes[off + 12 + kl] == 0u8
            &&& bytes[off + 13 + kl] == 0u8
        }),
{
    lemma_candidate_header(bytes, off, c);
    match c {
        CommandModel::Put(_, _) => {
            assert(false);
        }
        CommandModel::Rm(k) => {
            lemma_candidate_rm_fields(bytes, off, k);
            let kb = encode_utf8(k);
            let kl = kb.len() as int;
            lemma_u32_le_inj(n as u32, (14 + kl) as u32);
            encode_utf8_valid_utf8(k);
            assert(bytes[off + 5] == bytes.subrange(off + 4, off + 8)[1]);
            assert(bytes[off + 6] == bytes.subrange(off + 4, off + 8)[2]);
            assert(bytes[off + 7] == bytes.subrange(off + 4, off + 8)[3]);
            assert(bytes[off + 12 + kl] == bytes.subrange(off + 12 + kl, off + 14 + kl)[0]);
            assert(bytes[off + 13 + kl] == bytes.subrange(off + 12 + kl, off + 14 + kl)[1]);
        }
    }
}

/// Any record decodable under a length field `n` and the `Set` tag is a
/// `Set` record laid out field by field under those bytes.
proof fn lemma_set_candidate_unique(bytes: Seq<u8>, off: int, n: int, c: CommandModel)
    requires
        can_decode(bytes, off, c),
        14 <= n <= 0xFFFFFFFF,
        bytes.subrange(off, off + 4) == u32_le(n as u32),
        bytes[off + 4] == 4u8,
    ensures
        c matches CommandModel::Put(k, v) && ({
            let kb = encode_utf8(k);
            let vb = encode_utf8(v);
            let kl = kb.len() as int;
            let vl = vb.len() as int;
            &&& 31 + kl + vl == n
            &&& kl <= MAX_STR_BYTES && vl <= MAX_STR_BYTES
            &&& valid_utf8(kb) && valid_utf8(vb)
            &&& bytes[off + 5] == 83u8 && bytes[off + 6] == 101u8 && bytes[off + 7] == 116u8
                && bytes[off + 8] == 0u8
            &&& bytes.subrange(off + 9, off + 13) == u32_le((n - 10) as u32)
            &&& bytes[off + 13] == 2u8 && bytes[off + 14] == 48u8 && bytes[off + 15] == 0u8
            &&& bytes.subrange(off + 16, off + 20) == u32_le((kl + 1) as u32)
            &&& bytes.subrange(off + 20, off + 20 + kl) == kb
            &&& bytes[off + 20 + kl] == 0u8
            &&& bytes[off + 21 + kl] == 2u8 && bytes[off + 22 + kl] == 49u8 && bytes[off + 23
                + kl] == 0u8
            &&& bytes.subrange(off + 24 + kl, off + 28 + kl) == u32_le((vl + 1) as u32)
            &&& bytes.subrange(off + 28 + kl, off + 28 + kl + vl) == vb
            &&& bytes[off + 28 + kl + vl] == 0u8 && bytes[off + 29 + kl + vl] == 0u8 && bytes[off
                + 30 + kl + vl] == 0u8
        }),
{
    lemma_candidate_header(bytes, off, c);
    match c {
        CommandModel::Rm(_) => {
            assert(false);
        }
        CommandModel::Put(k, v) => {
            lemma_candidate_set_fields(bytes, off, k, v);
            let kb = encode_utf8(k);
            let vb = encode_utf8(v);
            let kl = kb.len() as int;
            let vl = vb.len() as int;
            lemma_u32_le_inj(n as u32, (31 + kl + vl) as u32);
            encode_utf8_valid_utf8(k);
            encode_utf8_valid_utf8(v);
            assert(bytes[off + 5] == bytes.subrange(off + 4, off + 9)[1]);
            assert(bytes[off + 6] == bytes.subrange(off + 4, off + 9)[2]);
            assert(bytes[off + 7] == bytes.subrange(off + 4, off + 9)[3]);
            assert(bytes[off + 8] == bytes.subrange(off + 4, off + 9)[4]);
            assert(bytes[off + 13] == bytes.subrange(off + 13, off + 16)[0]);
            assert(bytes[off + 14] == bytes.subrange(off + 13, off + 16)[1]);
            assert(bytes[off + 15] == bytes.subrange(off + 13, off + 16)[2]);
            assert(bytes[off + 20 + kl] == bytes.subrange(off + 20 + kl, off + 21 + kl)[0]);
            assert(bytes[off + 21 + kl] == bytes.subrange(off + 21 + kl, off + 24 + kl)[0]);
            assert(bytes[off + 22 + kl] == bytes.subrange(off + 21 + kl, off + 24 + kl)[1]);
            assert(bytes[off + 23 + kl] == bytes.subrange(off + 21 + kl, off + 24 + kl)[2]);
            assert(bytes[off + 28 + kl + vl] == bytes.subrange(off + 28 + kl + vl, off + n)[0]);
            assert(bytes[off + 29 + kl + vl] == bytes.subrange(off + 28 + kl + vl, off + n)[1]);
            assert(bytes[off + 30 + kl + vl] == bytes.subrange(off + 28 + kl + vl, off + n)[2]);
        }
    }
}


/// Bytes that passed every structural check at `off` hold the whole
/// `Set` document of the copied key and value bytes.
#[verifier::rlimit(100)]
proof fn lemma_set_region(bytes: Seq<u8>, off: int, n: int, kbv: Seq<u8>, vbv: Seq<u8>)
    requires
        0 <= off,
        31 <= n <= 0xFFFFFFFF,
        off + n <= bytes.len(),
        kbv.len() <= MAX_STR_BYTES,
        kbv.len() <= n - 31,
        vbv.len() == n - 31 - kbv.len(),
        bytes.subrange(off, off + 4) == u32_le(n as u32),
        bytes[off + 4] == 4u8,
        bytes[off + 5] == 83u8,
        bytes[off + 6] == 101u8,
        bytes[off + 7] == 116u8,
        bytes[off + 8] == 0u8,
        u32_le((n - 10) as u32) == bytes.subrange(off + 9, off + 13),
        bytes[off + 13] == 2u8,
        bytes[off + 14] == 48u8,
        bytes[off + 15] == 0u8,
        u32_le((kbv.len() + 1) as u32) == bytes.subrange(off + 16, off + 20),
        kbv == bytes.subrange(off + 20, off + 20 + kbv.len()),
        bytes[off + 20 + kbv.len()] == 0u8,
        bytes[off + 21 + kbv.len()] == 2u8,
        bytes[off + 22 + kbv.len()] == 49u8,
        bytes[off + 23 + kbv.len()] == 0u8,
        u32_le((vbv.len() + 1) as u32) == bytes.subrange(off + 24 + kbv.len(), off + 28 + kbv.len()),
        vbv == bytes.subrange(off + 28 + kbv.len(), off + 28 + kbv.len() + vbv.len()),
        bytes[off + 28 + kbv.len() + vbv.len()] == 0u8,
        bytes[off + 29 + kbv.len() + vbv.len()] == 0u8,
        bytes[off + 30 + kbv.len() + vbv.len()] == 0u8,
    ensures
        bytes.subrange(off, off + n) == enc_set_b(kbv, vbv),
        enc_set_b(kbv, vbv).len() == n,
{
    let kl = kbv.len() as int;
    let vl = vbv.len() as int;
    assert(bytes.subrange(off + 4, off + 9) =~= seq![4u8, 83u8, 101u8, 116u8, 0u8]);
    assert(bytes.subrange(off + 13, off + 16) =~= seq![2u8, 48u8, 0u8]);
    assert(bytes.subrange(off + 20 + kl, off + 21 + kl) =~= seq![0u8]);
    assert(bytes.subrange(off + 21 + kl, off + 24 + kl) =~= seq![2u8, 49u8, 0u8]);
    assert(bytes.subrange(off + 28 + kl + vl, off + 29 + kl + vl) =~= seq![0u8]);
    assert(bytes.subrange(off + 29 + kl + vl, off + 31 + kl + vl) =~= seq![0u8, 0u8]);
    lemma_set_assemble(bytes, off, kbv, vbv);
}

/// The decoded strings of a fully checked `Set` document are readable at
/// `off` as a record.
#[verifier::rlimit(100)]
proof fn lemma_set_sound(
    bytes: Seq<u8>,
    off: int,
    n: int,
    kbv: Seq<u8>,
    vbv: Seq<u8>,
    ks: Seq<char>,
    vs: Seq<char>,
)
    requires
        0 <= off,
        31 <= n <= 0xFFFFFFFF,
        off + n <= bytes.len(),
        kbv.len() <= MAX_STR_BYTES,
        vbv.len() <= MAX_STR_BYTES,
        bytes.subrange(off, off + n) == enc_set_b(kbv, vbv),
        enc_set_b(kbv, vbv).len() == n,
        vbv.len() == n - 31 - kbv.len(),
        valid_utf8(kbv),
        valid_utf8(vbv),
        ks == decode_utf8(kbv),
        vs == decode_utf8(vbv),
    ensures
        can_decode(bytes, off, CommandModel::Put(ks, vs)),
        enc_record(CommandModel::Put(ks, vs)).len() == n,
{
    decode_utf8_encode_utf8(kbv);
    decode_utf8_encode_utf8(vbv);
    assert(encode_utf8(ks) == kbv);
    assert(encode_utf8(vs) == vbv);
    assert(enc_record(CommandModel::Put(ks, vs)) == enc_set_b(kbv, vbv));
}

/// Decode one `Rm` document whose length field `n` and tag byte were
/// already read.
#[verifier::rlimit(100)]
fn decode_rm_doc(log: &Vec<u8>, off: usize, n: usize) -> (r: Option<(KvCommand, usize)>)
    requires
        14 <= n <= 0xFFFFFFFF,
        off + n <= log@.len(),
        log@.subrange(off as int, off as int + 4) == u32_le(n as u32),
        log@[off as int + 4] == 2u8,
    ensures
        r matches Some(p) ==> can_decode(log@, off as int, p.0@) && enc_record(p.0@).len()
            == n as int && p.1 == off + n,
        forall|c: CommandModel|
            can_decode(log@, off as int, c) ==> (r matches Some(p) && p.0@ == c),
{
    let ll: usize = log.len();
    let ghost bo = off as int;
    if !(log[off + 5] == 82 && log[off + 6] == 109 && log[off + 7] == 0) {
        proof {
            assert forall|c: CommandModel| !can_decode(log@, bo, c) by {
                if can_decode(log@, bo, c) {
                    lemma_rm_candidate_unique(log@, bo, n as int, c);
                }
            }
        }
        return None;
    }
    let klen32 = read_u32_le(log, off + 8).unwrap();
    let klu: usize = klen32 as usize;
    if klu == 0 || klu - 1 > MAX_STR_BYTES || klu - 1 != n - 14 {
        proof {
            assert forall|c: CommandModel| !can_decode(log@, bo, c) by {
                if can_decode(log@, bo, c) {
                    lemma_rm_candidate_unique(log@, bo, n as int, c);
                    lemma_u32_le_inj(klen32, (encode_utf8(c->Rm_0).len() + 1) as u32);
                }
            }
        }
        return None;
    }
    let kb_len: usize = klu - 1;
    let key_bytes = copy_range(log, off + 12, kb_len);
    let ghost kbv = key_bytes@;
    if !(log[off + 12 + kb_len] == 0 && log[off + 13 + kb_len] == 0) {
        proof {
            assert forall|c: CommandModel| !can_decode(log@, bo, c) by {
                if can_decode(log@, bo, c) {
                    lemma_rm_candidate_unique(log@, bo, n as int, c);
                    lemma_u32_le_inj(klen32, (encode_utf8(c->Rm_0).len() + 1) as u32);
                }
            }
        }
        return None;
    }
    let kstr = match bytes_to_string(key_bytes) {
        Some(s) => s,
        None => {
            proof {
                assert forall|c: CommandModel| !can_decode(log@, bo, c) by {
                    if can_decode(log@, bo, c) {
                        lemma_rm_candidate_unique(log@, bo, n as int, c);
                        lemma_u32_le_inj(klen32, (encode_utf8(c->Rm_0).len() + 1) as u32);
                    }
                }
            }
            return None;
        }
    };
    proof {
        decode_utf8_encode_utf8(kbv);
        assert(log@.subrange(bo + 4, bo + 8) =~= seq![2u8, 82u8, 109u8, 0u8]);
        assert(log@.subrange(bo + 12 + kb_len as int, bo + 13 + kb_len as int) =~= seq![0u8]);
        assert(log@.subrange(bo + 13 + kb_len as int, bo + 14 + kb_len as int) =~= seq![0u8]);
        lemma_rm_assemble(log@, bo, kbv);
        assert forall|c: CommandModel| can_decode(log@, bo, c) implies c == CommandModel::Rm(
            kstr@,
        ) by {
            lemma_rm_candidate_unique(log@, bo, n as int, c);
            lemma_u32_le_inj(klen32, (encode_utf8(c->Rm_0).len() + 1) as u32);
            encode_utf8_decode_utf8(c->Rm_0);
        }
    }
    Some((KvCommand::Rm(kstr), off + n))
}

/// In bytes whose fixed `Set` fields were already checked, any decodable
/// record is the `Set` record of the strings the key and value regions
/// decode to.
#[verifier::rlimit(100)]
proof fn lemma_set_candidate_resolved(bytes: Seq<u8>, off: int, n: int, kb_len: int, c: CommandModel)
    requires
        can_decode(bytes, off, c),
        0 <= off,
        31 <= n <= 0xFFFFFFFF,
        off + n <= bytes.len(),
        0 <= kb_len <= MAX_STR_BYTES,
        kb_len <= n - 31,
        bytes.subrange(off, off + 4) == u32_le(n as u32),
        bytes[off + 4] == 4u8,
        u32_le((kb_len + 1) as u32) == bytes.subrange(off + 16, off + 20),
    ensures
        c matches CommandModel::Put(k, v) && ({
            &&& encode_utf8(k) == bytes.subrange(off + 20, off + 20 + kb_len)
            &&& encode_utf8(v) == bytes.subrange(off + 28 + kb_len, off + n - 3)
            &&& k == decode_utf8(bytes.subrange(off + 20, off + 20 + kb_len))
            &&& v == decode_utf8(bytes.subrange(off + 28 + kb_len, off + n - 3))
            &&& valid_utf8(bytes.subrange(off + 20, off + 20 + kb_len))
            &&& valid_utf8(bytes.subrange(off + 28 + kb_len, off + n - 3))
            &&& bytes[off + 20 + kb_len] == 0u8
            &&& bytes[off + 21 + kb_len] == 2u8
            &&& bytes[off + 22 + kb_len] == 49u8
            &&& bytes[off + 23 + kb_len] == 0u8
            &&& u32_le((n - 30 - kb_len) as u32) == bytes.subrange(off + 24 + kb_len, off + 28 + kb_len)
            &&& bytes[off + n - 3] == 0u8
            &&& bytes[off + n - 2] == 0u8
            &&& bytes[off + n - 1] == 0u8
        }),
{
    lemma_set_candidate_unique(bytes, off, n, c);
    let k = c->Put_0;
    let v = c->Put_1;
    lemma_u32_le_inj((kb_len + 1) as u32, (encode_utf8(k).len() + 1) as u32);
    encode_utf8_decode_utf8(k);
    encode_utf8_decode_utf8(v);
}

#[verifier::rlimit(100)]
fn decode_set_fields(log: &Vec<u8>, off: usize, n: usize, kb_len: usize) -> (r: Option<
    (KvCommand, usize),
>)
    requires
        31 <= n <= 0xFFFFFFFF,
        off + n <= log@.len(),
        kb_len <= MAX_STR_BYTES,
        kb_len <= n - 31,
        log@.subrange(off as int, off as int + 4) == u32_le(n as u32),
        log@[off as int + 4] == 4u8,
        log@[off as int + 5] == 83u8,
        log@[off as int + 6] == 101u8,
        log@[off as int + 7] == 116u8,
        log@[off as int + 8] == 0u8,
        u32_le((n - 10) as u32) == log@.subrange(off as int + 9, off as int + 13),
        log@[off as int + 13] == 2u8,
        log@[off as int + 14] == 48u8,
        log@[off as int + 15] == 0u8,
        u32_le((kb_len + 1) as u32) == log@.subrange(off as int + 16, off as int + 20),
    ensures
        r matches Some(p) ==> can_decode(log@, off as int, p.0@) && enc_record(p.0@).len()
            == n as int && p.1 == off + n,
        forall|c: CommandModel|
            can_decode(log@, off as int, c) ==> (r matches Some(p) && p.0@ == c),
{
    let ll: usize = log.len();
    let ghost bo = off as int;
    let vb_len: usize = n - 31 - kb_len;
    if vb_len > MAX_STR_BYTES {
        proof {
            assert forall|c: CommandModel| !can_decode(log@, bo, c) by {
                if can_decode(log@, bo, c) {
                    lemma_set_candidate_resolved(log@, bo, n as int, kb_len as int, c);
                }
            }
        }
        return None;
    }
    let key_bytes = copy_range(log, off + 20, kb_len);
    let ghost kbv = key_bytes@;
    let q: usize = off + 21 + kb_len;
    if !(log[off + 20 + kb_len] == 0 && log[q] == 2 && log[q + 1] == 49 && log[q + 2] == 0) {
        proof {
            assert forall|c: CommandModel| !can_decode(log@, bo, c) by {
                if can_decode(log@, bo, c) {
                    lemma_set_candidate_resolved(log@, bo, n as int, kb_len as int, c);
                }
            }
        }
        return None;
    }
    let vlen32 = read_u32_le(log, q + 3).unwrap();
    if vlen32 as usize != vb_len + 1 {
        proof {
            assert forall|c: CommandModel| !can_decode(log@, bo, c) by {
                if can_decode(log@, bo, c) {
                    lemma_set_candidate_resolved(log@, bo, n as int, kb_len as int, c);
                    lemma_u32_le_inj(vlen32, (n - 30 - kb_len) as u32);
                }
            }
        }
        return None;
    }
    let value_bytes = copy_range(log, q + 7, vb_len);
    let ghost vbv = value_bytes@;
    if !(log[q + 7 + vb_len] == 0 && log[q + 8 + vb_len] == 0 && log[q + 9 + vb_len] == 0) {
        proof {
            assert forall|c: CommandModel| !can_decode(log@, bo, c) by {
                if can_decode(log@, bo, c) {
                    lemma_set_candidate_resolved(log@, bo, n as int, kb_len as int, c);
                }
            }
        }
        return None;
    }
    let kstr = match bytes_to_string(key_bytes) {
        Some(s) => s,
        None => {
            proof {
                assert forall|c: CommandModel| !can_decode(log@, bo, c) by {
                    if can_decode(log@, bo, c) {
                        lemma_set_candidate_resolved(log@, bo, n as int, kb_len as int, c);
                    }
                }
            }
            return None;
        }
    };
    let vstr = match bytes_to_string(value_bytes) {
        Some(s) => s,
        None => {
            proof {
                assert forall|c: CommandModel| !can_decode(log@, bo, c) by {
                    if can_decode(log@, bo, c) {
                        lemma_set_candidate_resolved(log@, bo, n as int, kb_len as int, c);
                    }
                }
            }
            return None;
        }
    };
    proof {
        lemma_set_region(log@, bo, n as int, kbv, vbv);
        lemma_set_sound(log@, bo, n as int, kbv, vbv, kstr@, vstr@);
        assert forall|c: CommandModel| can_decode(log@, bo, c) implies c == CommandModel::Put(
            kstr@,
            vstr@,
        ) by {
            lemma_set_candidate_resolved(log@, bo, n as int, kb_len as int, c);
        }
    }
    Some((KvCommand::Put(kstr, vstr), off + n))
}

/// Decode one `Set` document whose length field `n` and tag byte were
/// already read.
#[verifier::rlimit(100)]
fn decode_set_doc(log: &Vec<u8>, off: usize, n: usize) -> (r: Option<(KvCommand, usize)>)
    requires
        14 <= n <= 0xFFFFFFFF,
        off + n <= log@.len(),
        log@.subrange(off as int, off as int + 4) == u32_le(n as u32),
        log@[off as int + 4] == 4u8,
    ensures
        r matches Some(p) ==> can_decode(log@, off as int, p.0@) && enc_record(p.0@).len()
            == n as int && p.1 == off + n,
        forall|c: CommandModel|
            can_decode(log@, off as int, c) ==> (r matches Some(p) && p.0@ == c),
{
    let ll: usize = log.len();
    let ghost bo = off as int;
    if n < 31 || !(log[off + 5] == 83 && log[off + 6] == 101 && log[off + 7] == 116 && log[off
        + 8] == 0) {
        proof {
            assert forall|c: CommandModel| !can_decode(log@, bo, c) by {
                if can_decode(log@, bo, c) {
                    lemma_set_candidate_unique(log@, bo, n as int, c);
                }
            }
        }
        return None;
    }
    let arr32 = read_u32_le(log, off + 9).unwrap();
    if arr32 as usize != n - 10 {
        proof {
            assert forall|c: CommandModel| !can_decode(log@, bo, c) by {
                if can_decode(log@, bo, c) {
                    lemma_set_candidate_unique(log@, bo, n as int, c);
                    lemma_u32_le_inj(arr32, (n - 10) as u32);
                }
            }
        }
        return None;
    }
    if !(log[off + 13] == 2 && log[off + 14] == 48 && log[off + 15] == 0) {
        proof {
            assert forall|c: CommandModel| !can_decode(log@, bo, c) by {
                if can_decode(log@, bo, c) {
                    lemma_set_candidate_unique(log@, bo, n as int, c);
                }
            }
        }
        return None;
    }
    let klen32 = read_u32_le(log, off + 16).unwrap();
    let klu: usize = klen32 as usize;
    if klu == 0 || klu - 1 > MAX_STR_BYTES || klu - 1 > n - 31 {
        proof {
            assert forall|c: CommandModel| !can_decode(log@, bo, c) by {
                if can_decode(log@, bo, c) {
                    lemma_set_candidate_unique(log@, bo, n as int, c);
                    lemma_u32_le_inj(klen32, (encode_utf8(c->Put_0).len() + 1) as u32);
                }
            }
        }
        return None;
    }
    let kb_len: usize = klu - 1;
    proof {
        assert((kb_len + 1) as u32 == klen32);
    }
    decode_set_fields(log, off, n, kb_len)
}

/// Decode exactly one record starting at `off`. Returns the record and the
/// offset just past it; where no full well-formed record lies at `off`,
/// returns nothing, the normal end-of-stream condition.
pub fn decode_record(log: &Vec<u8>, off: usize) -> (r: Option<(KvCommand, usize)>)
    ensures
        r matches Some(p) ==> can_decode(log@, off as int, p.0@) && p.1 == off + enc_record(
            p.0@,
        ).len(),
        forall|c: CommandModel|
            can_decode(log@, off as int, c) ==> (r matches Some(p) && p.0@ == c),
{
    let len: usize = log.len();
    if off >= len || len - off < 14 {
        proof {
            assert forall|c: CommandModel| !can_decode(log@, off as int, c) by {
                if can_decode(log@, off as int, c) {
                    lemma_candidate_header(log@, off as int, c);
                }
            }
        }
        return None;
    }
    let n32 = read_u32_le(log, off).unwrap();
    let n: usize = n32 as usize;
    if n < 14 || n > len - off {
        proof {
            assert forall|c: CommandModel| !can_decode(log@, off as int, c) by {
                if can_decode(log@, off as int, c) {
                    lemma_candidate_header(log@, off as int, c);
                    lemma_u32_le_inj(n32, enc_record(c).len() as u32);
                }
            }
        }
        return None;
    }
    let tag = log[off + 4];
    if tag == 4 {
        decode_set_doc(log, off, n)
    } else if tag == 2 {
        decode_rm_doc(log, off, n)
    } else {
        proof {
            assert forall|c: CommandModel| !can_decode(log@, off as int, c) by {
                if can_decode(log@, off as int, c) {
                    lemma_candidate_header(log@, off as int, c);
                }
            }
        }
        None
    }
}

/// Serialize one mutation record, or report that its strings do not fit
/// the format.
pub fn encode_record(cmd: &KvCommand) -> (r: Option<Vec<u8>>)
    ensures
        r matches Some(b) ==> cmd_fits(cmd@) && b@ == enc_record(cmd@),
        r is None ==> !cmd_fits(cmd@),
{
    match cmd {
        KvCommand::Put(key, value) => {
            let kb = str_bytes(key);
            let vb = str_bytes(value);
            if kb.len() > MAX_STR_BYTES || vb.len() > MAX_STR_BYTES {
                return None;
            }
            Some(build_set_doc(&kb, &vb))
        }
        KvCommand::Rm(key) => {
            let kb = str_bytes(key);
            if kb.len() > MAX_STR_BYTES {
                return None;
            }
            Some(build_rm_doc(&kb))
        }
    }
}

} // verus!
