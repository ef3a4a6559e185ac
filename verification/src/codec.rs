//! The key codec: pure byte-layout functions for inner keys, range
//! anchors and timestamped value framing, together with the proofs that
//! the layout keeps distinct tables in disjoint, ordered key ranges.
//!
//! An inner key is `table id (4 bytes, big endian) ++ sentinel ++ user
//! key`; a head anchor is `table id ++ 0`, a regular key carries
//! sentinel `1`, a tail anchor is `table id ++ 2`. A timestamped value
//! is `timestamp (4 bytes, big endian) ++ user value`.

use vstd::prelude::*;
use vstd::slice::slice_to_vec;
use vstd::string::StringSliceAdditionalSpecFns;

use crate::consts::{
    HEAD_ANCHOR_SENTINEL, ID_TO_MAX_KEY_TABLE_ID, ID_TO_NAME_TABLE_ID, INFO_TABLE_ID,
    NAME_TO_ID_TABLE_ID, REGULAR_KEY_SENTINEL, TAIL_ANCHOR_SENTINEL,
};
use crate::types::{ItemId, TableId, Timestamp, U8a4};

verus! {

/// The four big-endian bytes of a 32-bit integer.
pub open spec fn spec_u32_to_be(x: u32) -> Seq<u8> {
    seq![
        ((x >> 24) & 0xff) as u8,
        ((x >> 16) & 0xff) as u8,
        ((x >> 8) & 0xff) as u8,
        (x & 0xff) as u8,
    ]
}

/// The 32-bit integer read from four big-endian bytes.
pub open spec fn spec_be_to_u32(s: Seq<u8>) -> u32
    recommends
        s.len() == 4,
{
    (((s[0] as u32) << 24) | ((s[1] as u32) << 16) | ((s[2] as u32) << 8) | (s[3] as u32)) as u32
}

/// The inner key of `key` inside the table whose id bytes are `table_id`.
pub open spec fn spec_inner_key(table_id: Seq<u8>, key: Seq<u8>) -> Seq<u8> {
    table_id + seq![REGULAR_KEY_SENTINEL] + key
}

/// The head anchor of a table: sorts at or before its first real key.
pub open spec fn spec_head_anchor(table_id: Seq<u8>) -> Seq<u8> {
    table_id + seq![HEAD_ANCHOR_SENTINEL]
}

/// The tail anchor of a table: sorts after every real key of the table.
pub open spec fn spec_tail_anchor(table_id: Seq<u8>) -> Seq<u8> {
    table_id + seq![TAIL_ANCHOR_SENTINEL]
}

/// A value framed with the four big-endian bytes of its write timestamp.
pub open spec fn spec_timestamped_value(timestamp: Seq<u8>, value: Seq<u8>) -> Seq<u8> {
    timestamp + value
}

/// Strict byte-lexicographic order: a proper prefix sorts first.
pub open spec fn lex_less(a: Seq<u8>, b: Seq<u8>) -> bool
    decreases a.len(),
{
    if b.len() == 0 {
        false
    } else if a.len() == 0 {
        true
    } else if a[0] != b[0] {
        a[0] < b[0]
    } else {
        lex_less(a.subrange(1, a.len() as int), b.subrange(1, b.len() as int))
    }
}

/// Encodes a 32-bit integer as four big-endian bytes.
pub fn u32_to_u8a4(x: u32) -> (r: U8a4)
    ensures
        r@ == spec_u32_to_be(x),
{
    let r: U8a4 = [(x >> 24) as u8, (x >> 16) as u8, (x >> 8) as u8, x as u8];
    proof {
        assert(((x >> 24) & 0xff) as u8 == (x >> 24) as u8) by (bit_vector);
        assert(((x >> 16) & 0xff) as u8 == (x >> 16) as u8) by (bit_vector);
        assert(((x >> 8) & 0xff) as u8 == (x >> 8) as u8) by (bit_vector);
        assert((x & 0xff) as u8 == x as u8) by (bit_vector);
        assert(r@ =~= spec_u32_to_be(x));
    }
    r
}

/// Reads the 32-bit integer held in four big-endian bytes.
pub fn u8a4_to_u32(x: U8a4) -> (r: u32)
    ensures
        r == spec_be_to_u32(x@),
{
    ((x[0] as u32) << 24) | ((x[1] as u32) << 16) | ((x[2] as u32) << 8) | (x[3] as u32)
}

/// Reads a 32-bit integer from the first four bytes of a buffer.
pub fn u8s_to_u32(u8s: &[u8]) -> (r: u32)
    requires
        u8s@.len() >= 4,
    ensures
        r == spec_be_to_u32(u8s@.subrange(0, 4)),
{
    let r: u32 = ((u8s[0] as u32) << 24) | ((u8s[1] as u32) << 16) | ((u8s[2] as u32) << 8) | (
    u8s[3] as u32);
    proof {
        let s = u8s@.subrange(0, 4);
        assert(s[0] == u8s@[0] && s[1] == u8s@[1] && s[2] == u8s@[2] && s[3] == u8s@[3]);
    }
    r
}

/// Copies the first four bytes of a buffer.
pub fn u8s_to_u8a4(u8s: &[u8]) -> (r: U8a4)
    requires
        u8s@.len() >= 4,
    ensures
        r@ == u8s@.subrange(0, 4),
{
    let r: U8a4 = [u8s[0], u8s[1], u8s[2], u8s[3]];
    proof {
        assert(r@ =~= u8s@.subrange(0, 4));
    }
    r
}

/// Builds the inner key of `key` inside table `table_id`; `key` may be
/// empty.
pub fn build_inner_key(table_id: TableId, key: &[u8]) -> (r: Vec<u8>)
    ensures
        r@ == spec_inner_key(table_id@, key@),
{
    let mut buf: Vec<u8> = Vec::new();
    buf.push(table_id[0]);
    buf.push(table_id[1]);
    buf.push(table_id[2]);
    buf.push(table_id[3]);
    buf.push(REGULAR_KEY_SENTINEL);
    let mut rest: Vec<u8> = slice_to_vec(key);
    buf.append(&mut rest);
    proof {
        assert(buf@ =~= spec_inner_key(table_id@, key@));
    }
    buf
}

/// Builds the head anchor of table `table_id`.
pub fn build_head_anchor(table_id: TableId) -> (r: Vec<u8>)
    ensures
        r@ == spec_head_anchor(table_id@),
{
    let mut buf: Vec<u8> = Vec::new();
    buf.push(table_id[0]);
    buf.push(table_id[1]);
    buf.push(table_id[2]);
    buf.push(table_id[3]);
    buf.push(HEAD_ANCHOR_SENTINEL);
    proof {
        assert(buf@ =~= spec_head_anchor(table_id@));
    }
    buf
}

/// Builds the tail anchor of table `table_id`.
pub fn build_tail_anchor(table_id: TableId) -> (r: Vec<u8>)
    ensures
        r@ == spec_tail_anchor(table_id@),
{
    let mut buf: Vec<u8> = Vec::new();
    buf.push(table_id[0]);
    buf.push(table_id[1]);
    buf.push(table_id[2]);
    buf.push(table_id[3]);
    buf.push(TAIL_ANCHOR_SENTINEL);
    proof {
        assert(buf@ =~= spec_tail_anchor(table_id@));
    }
    buf
}

/// Frames `value` with the four big-endian bytes of `timestamp`.
pub fn build_timestamped_value(timestamp: Timestamp, value: &[u8]) -> (r: Vec<u8>)
    ensures
        r@ == spec_timestamped_value(timestamp@, value@),
{
    let mut buf: Vec<u8> = Vec::new();
    buf.push(timestamp[0]);
    buf.push(timestamp[1]);
    buf.push(timestamp[2]);
    buf.push(timestamp[3]);
    let mut rest: Vec<u8> = slice_to_vec(value);
    buf.append(&mut rest);
    proof {
        assert(buf@ =~= spec_timestamped_value(timestamp@, value@));
    }
    buf
}

/// Builds the inner key of an item of the reserved info table.
pub fn build_info_table_inner_key(item_id: ItemId) -> (r: Vec<u8>)
    ensures
        r@ == spec_inner_key(spec_u32_to_be(INFO_TABLE_ID), item_id@),
{
    let id: TableId = u32_to_u8a4(INFO_TABLE_ID);
    let mut buf: Vec<u8> = build_inner_key(id, item_id.as_slice());
    buf
}

/// Builds the inner key under which `table_name` maps to its table id.
pub fn build_name_to_id_table_inner_key(table_name: &str) -> (r: Vec<u8>)
    ensures
        r@ == spec_inner_key(spec_u32_to_be(NAME_TO_ID_TABLE_ID), table_name.spec_bytes()),
{
    let id: TableId = u32_to_u8a4(NAME_TO_ID_TABLE_ID);
    build_inner_key(id, table_name.as_bytes())
}

/// Builds the inner key under which `table_id` maps back to its name.
pub fn build_id_to_name_table_inner_key(table_id: TableId) -> (r: Vec<u8>)
    ensures
        r@ == spec_inner_key(spec_u32_to_be(ID_TO_NAME_TABLE_ID), table_id@),
{
    let id: TableId = u32_to_u8a4(ID_TO_NAME_TABLE_ID);
    build_inner_key(id, table_id.as_slice())
}

/// Builds the inner key of the per-table maximum-key record of `table_id`.
pub fn build_id_to_max_key_table_inner_key(table_id: TableId) -> (r: Vec<u8>)
    ensures
        r@ == spec_inner_key(spec_u32_to_be(ID_TO_MAX_KEY_TABLE_ID), table_id@),
{
    let id: TableId = u32_to_u8a4(ID_TO_MAX_KEY_TABLE_ID);
    build_inner_key(id, table_id.as_slice())
}

/// Copies the table-id prefix out of an inner key.
pub fn extract_table_id(buf: &[u8]) -> (r: TableId)
    requires
        buf@.len() >= 4,
    ensures
        r@ == buf@.subrange(0, 4),
{
    u8s_to_u8a4(buf)
}

/// Copies the user key out of an inner key, past the id and sentinel.
pub fn extract_key(buf: &[u8]) -> (r: Vec<u8>)
    requires
        buf@.len() >= 5,
    ensures
        r@ == buf@.subrange(5, buf@.len() as int),
{
    let sub: &[u8] = vstd::slice::slice_subrange(buf, 5, buf.len());
    slice_to_vec(sub)
}

/// Copies the timestamp prefix out of a timestamped value.
pub fn extract_timestamp(buf: &[u8]) -> (r: Timestamp)
    requires
        buf@.len() >= 4,
    ensures
        r@ == buf@.subrange(0, 4),
{
    u8s_to_u8a4(buf)
}

/// Copies the user value out of a timestamped value, past the timestamp.
pub fn extract_value(buf: &[u8]) -> (r: Vec<u8>)
    requires
        buf@.len() >= 4,
    ensures
        r@ == buf@.subrange(4, buf@.len() as int),
{
    let sub: &[u8] = vstd::slice::slice_subrange(buf, 4, buf.len());
    slice_to_vec(sub)
}

/// The big-endian encoding respects the numeric order.
pub proof fn lemma_be_order(a: u32, b: u32)
    requires
        a < b,
    ensures
        lex_less(spec_u32_to_be(a), spec_u32_to_be(b)),
{
    let sa = spec_u32_to_be(a);
    let sb = spec_u32_to_be(b);
    let a0 = ((a >> 24) & 0xff) as u8;
    let a1 = ((a >> 16) & 0xff) as u8;
    let a2 = ((a >> 8) & 0xff) as u8;
    let a3 = (a & 0xff) as u8;
    let b0 = ((b >> 24) & 0xff) as u8;
    let b1 = ((b >> 16) & 0xff) as u8;
    let b2 = ((b >> 8) & 0xff) as u8;
    let b3 = (b & 0xff) as u8;
    assert(a0 < b0 || (a0 == b0 && (a1 < b1 || (a1 == b1 && (a2 < b2 || (a2 == b2 && a3
        < b3)))))) by (bit_vector)
        requires
            a < b,
            a0 == ((a >> 24) & 0xff) as u8,
            a1 == ((a >> 16) & 0xff) as u8,
            a2 == ((a >> 8) & 0xff) as u8,
            a3 == (a & 0xff) as u8,
            b0 == ((b >> 24) & 0xff) as u8,
            b1 == ((b >> 16) & 0xff) as u8,
            b2 == ((b >> 8) & 0xff) as u8,
            b3 == (b & 0xff) as u8,
    ;
    assert(sa.subrange(1, 4) =~= seq![a1, a2, a3]);
    assert(sb.subrange(1, 4) =~= seq![b1, b2, b3]);
    assert(seq![a1, a2, a3].subrange(1, 3) =~= seq![a2, a3]);
    assert(seq![b1, b2, b3].subrange(1, 3) =~= seq![b2, b3]);
    assert(seq![a2, a3].subrange(1, 2) =~= seq![a3]);
    assert(seq![b2, b3].subrange(1, 2) =~= seq![b3]);
    if a0 < b0 {
    } else if a1 < b1 {
        assert(lex_less(seq![a1, a2, a3], seq![b1, b2, b3]));
    } else if a2 < b2 {
        assert(lex_less(seq![a2, a3], seq![b2, b3]));
        assert(lex_less(seq![a1, a2, a3], seq![b1, b2, b3]));
    } else {
        assert(a3 < b3);
        assert(lex_less(seq![a3], seq![b3]));
        assert(lex_less(seq![a2, a3], seq![b2, b3]));
        assert(lex_less(seq![a1, a2, a3], seq![b1, b2, b3]));
    }
}

/// The big-endian encoding reads back as the number it encodes.
pub proof fn lemma_be_roundtrip(x: u32)
    ensures
        spec_be_to_u32(spec_u32_to_be(x)) == x,
{
    let s = spec_u32_to_be(x);
    assert(((((x >> 24) & 0xff) as u8 as u32) << 24) | ((((x >> 16) & 0xff) as u8 as u32) << 16) | (
    (((x >> 8) & 0xff) as u8 as u32) << 8) | (((x & 0xff) as u8) as u32) == x) by (bit_vector);
}

/// Four bytes read as a number and encoded again give the same bytes.
pub proof fn lemma_be_bytes_roundtrip(s: Seq<u8>)
    requires
        s.len() == 4,
    ensures
        spec_u32_to_be(spec_be_to_u32(s)) == s,
{
    let b0 = s[0];
    let b1 = s[1];
    let b2 = s[2];
    let b3 = s[3];
    let x = spec_be_to_u32(s);
    assert(((((b0 as u32) << 24) | ((b1 as u32) << 16) | ((b2 as u32) << 8) | (b3 as u32)) as u32
        >> 24) & 0xff == b0 as u32) by (bit_vector);
    assert(((((b0 as u32) << 24) | ((b1 as u32) << 16) | ((b2 as u32) << 8) | (b3 as u32)) as u32
        >> 16) & 0xff == b1 as u32) by (bit_vector);
    assert(((((b0 as u32) << 24) | ((b1 as u32) << 16) | ((b2 as u32) << 8) | (b3 as u32)) as u32
        >> 8) & 0xff == b2 as u32) by (bit_vector);
    assert((((((b0 as u32) << 24) | ((b1 as u32) << 16) | ((b2 as u32) << 8) | (b3 as u32)) as u32)
        & 0xff == b3 as u32)) by (bit_vector);
    assert(spec_u32_to_be(x) =~= s);
}

/// Reading two four-byte keys as numbers respects their byte order.
pub proof fn lemma_be_order_inverse(a: Seq<u8>, b: Seq<u8>)
    requires
        a.len() == 4,
        b.len() == 4,
        lex_less(a, b),
    ensures
        spec_be_to_u32(a) < spec_be_to_u32(b),
{
    let x = spec_be_to_u32(a);
    let y = spec_be_to_u32(b);
    lemma_be_bytes_roundtrip(a);
    lemma_be_bytes_roundtrip(b);
    if x == y {
        crate::lex::lemma_lex_irrefl(a);
    } else if y < x {
        lemma_be_order(y, x);
        crate::lex::lemma_lex_asym(a, b);
    }
}

/// Every inner key of a lower table id sorts strictly before every
/// inner key of a higher table id, whatever the user keys: one flat
/// keyspace holds the tables in disjoint, ordered ranges.
pub proof fn lemma_inner_key_table_order(a: u32, b: u32, k1: Seq<u8>, k2: Seq<u8>)
    requires
        a < b,
    ensures
        lex_less(
            spec_inner_key(spec_u32_to_be(a), k1),
            spec_inner_key(spec_u32_to_be(b), k2),
        ),
{
    let pa = spec_u32_to_be(a);
    let pb = spec_u32_to_be(b);
    lemma_be_order(a, b);
    crate::lex::lemma_lex_prefix_diff(pa, pb, seq![REGULAR_KEY_SENTINEL] + k1, seq![
        REGULAR_KEY_SENTINEL,
    ] + k2);
    assert(pa + (seq![REGULAR_KEY_SENTINEL] + k1) =~= spec_inner_key(pa, k1));
    assert(pb + (seq![REGULAR_KEY_SENTINEL] + k2) =~= spec_inner_key(pb, k2));
}

/// The table id and the user key are read back exactly from an inner
/// key: building and extracting are mutual inverses.
pub proof fn lemma_inner_key_roundtrip(table_id: Seq<u8>, key: Seq<u8>)
    requires
        table_id.len() == 4,
    ensures
        spec_inner_key(table_id, key).subrange(0, 4) == table_id,
        spec_inner_key(table_id, key).subrange(5, spec_inner_key(table_id, key).len() as int)
            == key,
{
    let ik = spec_inner_key(table_id, key);
    assert(ik.subrange(0, 4) =~= table_id);
    assert(ik.subrange(5, ik.len() as int) =~= key);
}

/// The timestamp and the user value are read back exactly from a
/// timestamped value: framing and stripping are mutual inverses.
pub proof fn lemma_timestamped_value_roundtrip(timestamp: Seq<u8>, value: Seq<u8>)
    requires
        timestamp.len() == 4,
    ensures
        spec_timestamped_value(timestamp, value).subrange(0, 4) == timestamp,
        spec_timestamped_value(timestamp, value).subrange(
            4,
            spec_timestamped_value(timestamp, value).len() as int,
        ) == value,
{
    let tv = spec_timestamped_value(timestamp, value);
    assert(tv.subrange(0, 4) =~= timestamp);
    assert(tv.subrange(4, tv.len() as int) =~= value);
}

/// A table's head anchor sorts at or before every inner key of the
/// table, and the tail anchor sorts after every inner key of the table:
/// the two anchors bound the table's whole range.
pub proof fn lemma_anchors_bound_table(table_id: Seq<u8>, key: Seq<u8>)
    requires
        table_id.len() == 4,
    ensures
        lex_less(spec_head_anchor(table_id), spec_inner_key(table_id, key)),
        lex_less(spec_inner_key(table_id, key), spec_tail_anchor(table_id)),
{
    crate::lex::lemma_lex_common_prefix(
        table_id,
        seq![HEAD_ANCHOR_SENTINEL],
        seq![REGULAR_KEY_SENTINEL] + key,
    );
    crate::lex::lemma_lex_common_prefix(
        table_id,
        seq![REGULAR_KEY_SENTINEL] + key,
        seq![TAIL_ANCHOR_SENTINEL],
    );
    assert(table_id + seq![HEAD_ANCHOR_SENTINEL] =~= spec_head_anchor(table_id));
    assert(table_id + (seq![REGULAR_KEY_SENTINEL] + key) =~= spec_inner_key(table_id, key));
    assert(table_id + seq![TAIL_ANCHOR_SENTINEL] =~= spec_tail_anchor(table_id));
    assert(lex_less(seq![HEAD_ANCHOR_SENTINEL], seq![REGULAR_KEY_SENTINEL] + key));
    assert(lex_less(seq![REGULAR_KEY_SENTINEL] + key, seq![TAIL_ANCHOR_SENTINEL]));
}


} // verus!
