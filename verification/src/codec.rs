//! The binary cell interchange format.
//!
//! A population travels between processes as consecutive 8-byte records,
//! one per cell: 4 little-endian bytes of `x`, then 4 little-endian bytes
//! of `y`, both read as the bit pattern of the signed coordinate.  A
//! partial trailing record — an input whose length is not a multiple of
//! 8 — is discarded, not an error.

use vstd::prelude::*;
use vstd::arithmetic::div_mod::lemma_fundamental_div_mod;
use vstd::arithmetic::div_mod::lemma_mod_bound;
use vstd::arithmetic::div_mod::lemma_div_denominator;
use crate::cell::Cell;
use crate::live_set::u32_of_i32;
use crate::live_set::i32_of_u32;
use crate::live_set::i32_to_u32_bits;
use crate::live_set::u32_to_i32_bits;
use crate::live_set::lemma_i32_bits_roundtrip;

verus! {

/// The four little-endian bytes of a 32-bit number.
pub open spec fn le_bytes_of_u32(u: u32) -> Seq<u8> {
    seq![
        (u % 256) as u8,
        ((u / 256) % 256) as u8,
        ((u / 65536) % 256) as u8,
        ((u / 16777216) % 256) as u8,
    ]
}

/// The 32-bit number four little-endian bytes spell.
pub open spec fn u32_of_le_bytes(b0: u8, b1: u8, b2: u8, b3: u8) -> u32 {
    (b0 + b1 * 256 + b2 * 65536 + b3 * 16777216) as u32
}

/// One cell's 8-byte record.
pub open spec fn cell_record(c: Cell) -> Seq<u8> {
    le_bytes_of_u32(u32_of_i32(c.0)) + le_bytes_of_u32(u32_of_i32(c.1))
}

/// The encoding of a whole cell list.
pub open spec fn spec_cells_to_bytes(cs: Seq<Cell>) -> Seq<u8>
    decreases cs.len(),
{
    if cs.len() == 0 {
        Seq::<u8>::empty()
    } else {
        cell_record(cs[0]) + spec_cells_to_bytes(cs.skip(1))
    }
}

/// The cell an 8-byte record spells.
pub open spec fn record_cell(b0: u8, b1: u8, b2: u8, b3: u8, b4: u8, b5: u8, b6: u8, b7: u8) -> Cell {
    (i32_of_u32(u32_of_le_bytes(b0, b1, b2, b3)), i32_of_u32(u32_of_le_bytes(b4, b5, b6, b7)))
}

/// The decoding of a byte stream: one cell per full 8-byte record, the
/// partial tail ignored.
pub open spec fn spec_bytes_to_cells(bs: Seq<u8>) -> Seq<Cell>
    decreases bs.len(),
{
    if bs.len() < 8 {
        Seq::<Cell>::empty()
    } else {
        seq![record_cell(bs[0], bs[1], bs[2], bs[3], bs[4], bs[5], bs[6], bs[7])]
            + spec_bytes_to_cells(bs.skip(8))
    }
}

/// Reassembling the four little-endian bytes of a number gives it back.
proof fn lemma_le_round_trip(u: u32)
    ensures
        u32_of_le_bytes(
            (u % 256) as u8,
            ((u / 256) % 256) as u8,
            ((u / 65536) % 256) as u8,
            ((u / 16777216) % 256) as u8,
        ) == u,
{
    let x = u as int;
    lemma_fundamental_div_mod(x, 256);
    lemma_fundamental_div_mod(x / 256, 256);
    lemma_fundamental_div_mod(x / 65536, 256);
    lemma_div_denominator(x, 256, 256);
    lemma_div_denominator(x, 65536, 256);
    lemma_mod_bound(x, 256);
    lemma_mod_bound(x / 256, 256);
    lemma_mod_bound(x / 65536, 256);
    assert(x / 16777216 < 256) by (nonlinear_arith)
        requires
            0 <= x < 0x1_0000_0000,
    ;
    assert(x == x % 256 + (x / 256 % 256) * 256 + (x / 65536 % 256) * 65536 + (x / 16777216)
        * 16777216);
}

/// Decoding inverts encoding: a cell list comes back exactly, in order.
pub proof fn lemma_binary_round_trip(cs: Seq<Cell>)
    ensures
        spec_bytes_to_cells(spec_cells_to_bytes(cs)) == cs,
    decreases cs.len(),
{
    if cs.len() == 0 {
        assert(spec_bytes_to_cells(spec_cells_to_bytes(cs)) =~= cs);
    } else {
        let c = cs[0];
        let rec = cell_record(c);
        let rest = spec_cells_to_bytes(cs.skip(1));
        let bs = spec_cells_to_bytes(cs);
        assert(bs == rec + rest);
        assert(rec.len() == 8);
        assert(bs.skip(8) =~= rest);
        lemma_le_round_trip(u32_of_i32(c.0));
        lemma_le_round_trip(u32_of_i32(c.1));
        lemma_i32_bits_roundtrip(c.0);
        lemma_i32_bits_roundtrip(c.1);
        assert(record_cell(bs[0], bs[1], bs[2], bs[3], bs[4], bs[5], bs[6], bs[7]) == c);
        lemma_binary_round_trip(cs.skip(1));
        assert(spec_bytes_to_cells(bs) =~= cs);
    }
}

/// Appending one cell appends its record to the encoding.
proof fn lemma_encode_push(cs: Seq<Cell>, c: Cell)
    ensures
        spec_cells_to_bytes(cs.push(c)) == spec_cells_to_bytes(cs) + cell_record(c),
    decreases cs.len(),
{
    if cs.len() == 0 {
        assert(cs.push(c)[0] == c);
        assert(cs.push(c).skip(1) =~= Seq::<Cell>::empty());
        assert(spec_cells_to_bytes(cs) =~= Seq::<u8>::empty());
        assert(spec_cells_to_bytes(cs.push(c).skip(1)) =~= Seq::<u8>::empty());
        assert(spec_cells_to_bytes(cs.push(c)) =~= spec_cells_to_bytes(cs) + cell_record(c));
    } else {
        assert(cs.push(c).skip(1) =~= cs.skip(1).push(c));
        assert(cs.push(c)[0] == cs[0]);
        lemma_encode_push(cs.skip(1), c);
        assert(spec_cells_to_bytes(cs.push(c)) =~= spec_cells_to_bytes(cs) + cell_record(c));
    }
}

/// Serializes a population for the interchange stream: 8 bytes per cell,
/// in the list's order.
#[verifier::loop_isolation(false)]
pub fn from_cells_to_bytes(collection: Vec<Cell>) -> (bytes: Vec<u8>)
    ensures
        bytes@ == spec_cells_to_bytes(collection@),
{
    let mut bytes: Vec<u8> = Vec::new();
    proof {
        assert(collection@.take(0int) =~= Seq::<Cell>::empty());
        assert(bytes@ =~= spec_cells_to_bytes(collection@.take(0int)));
    }
    for i in 0..collection.len()
        invariant
            bytes@ == spec_cells_to_bytes(collection@.take(i as int)),
    {
        let cell = collection[i];
        let ghost b0 = bytes@;
        let x = i32_to_u32_bits(cell.0);
        bytes.push((x % 256) as u8);
        bytes.push(((x / 256) % 256) as u8);
        bytes.push(((x / 65536) % 256) as u8);
        bytes.push(((x / 16777216) % 256) as u8);
        let y = i32_to_u32_bits(cell.1);
        bytes.push((y % 256) as u8);
        bytes.push(((y / 256) % 256) as u8);
        bytes.push(((y / 65536) % 256) as u8);
        bytes.push(((y / 16777216) % 256) as u8);
        proof {
            assert(bytes@ =~= b0 + cell_record(cell));
            lemma_encode_push(collection@.take(i as int), cell);
            assert(collection@.take(i + 1) =~= collection@.take(i as int).push(cell));
        }
    }
    proof {
        assert(collection@.take(collection@.len() as int) =~= collection@);
    }
    bytes
}

/// The cell spelled at record offset `8 * k` of a byte stream.
spec fn record_cell_at(bs: Seq<u8>, k: int) -> Cell {
    record_cell(
        bs[8 * k],
        bs[8 * k + 1],
        bs[8 * k + 2],
        bs[8 * k + 3],
        bs[8 * k + 4],
        bs[8 * k + 5],
        bs[8 * k + 6],
        bs[8 * k + 7],
    )
}

/// The decoding holds one cell per full record, each read at its offset.
proof fn lemma_decode_shape(bs: Seq<u8>)
    ensures
        spec_bytes_to_cells(bs).len() == bs.len() as int / 8,
        forall|k: int|
            0 <= k < bs.len() as int / 8 ==> spec_bytes_to_cells(bs)[k] == record_cell_at(bs, k),
    decreases bs.len(),
{
    if bs.len() < 8 {
        assert(bs.len() as int / 8 == 0) by (nonlinear_arith)
            requires
                0 <= bs.len() < 8,
        ;
    } else {
        lemma_decode_shape(bs.skip(8));
        assert(bs.skip(8).len() as int / 8 == bs.len() as int / 8 - 1) by (nonlinear_arith)
            requires
                bs.skip(8).len() == bs.len() - 8,
                bs.len() >= 8,
        ;
        assert forall|k: int|
            0 <= k < bs.len() as int / 8 implies spec_bytes_to_cells(bs)[k] == record_cell_at(
            bs,
            k,
        ) by {
            if k > 0 {
                assert(spec_bytes_to_cells(bs)[k] == spec_bytes_to_cells(bs.skip(8))[k - 1]);
                assert(spec_bytes_to_cells(bs.skip(8))[k - 1] == record_cell_at(bs.skip(8), k - 1));
                assert(bs.skip(8)[8 * (k - 1)] == bs[8 * k]);
                assert(bs.skip(8)[8 * (k - 1) + 1] == bs[8 * k + 1]);
                assert(bs.skip(8)[8 * (k - 1) + 2] == bs[8 * k + 2]);
                assert(bs.skip(8)[8 * (k - 1) + 3] == bs[8 * k + 3]);
                assert(bs.skip(8)[8 * (k - 1) + 4] == bs[8 * k + 4]);
                assert(bs.skip(8)[8 * (k - 1) + 5] == bs[8 * k + 5]);
                assert(bs.skip(8)[8 * (k - 1) + 6] == bs[8 * k + 6]);
                assert(bs.skip(8)[8 * (k - 1) + 7] == bs[8 * k + 7]);
            }
        };
    }
}

/// Parses an interchange stream back into cells: one per full 8-byte
/// record, a partial trailing record discarded.
#[verifier::loop_isolation(false)]
pub fn from_bytes_to_cells(bytes: Vec<u8>) -> (collection: Vec<Cell>)
    ensures
        collection@ == spec_bytes_to_cells(bytes@),
{
    let len = bytes.len();
    let cell_amount = (len - (len % 8)) / 8;
    proof {
        lemma_fundamental_div_mod(len as int, 8);
        lemma_mod_bound(len as int, 8);
        assert(cell_amount == len as int / 8) by (nonlinear_arith)
            requires
                cell_amount == (len - (len as int % 8)) / 8,
                len - (len as int % 8) == 8 * (len as int / 8),
                len as int / 8 >= 0,
        ;
        lemma_decode_shape(bytes@);
    }
    let mut collection: Vec<Cell> = Vec::new();
    for k in 0..cell_amount
        invariant
            collection@.len() == k as int,
            forall|j: int| 0 <= j < k as int ==> collection@[j] == record_cell_at(bytes@, j),
    {
        let i = k * 8;
        proof {
            assert(8 * (k as int) + 8 <= 8 * (len as int / 8)) by (nonlinear_arith)
                requires
                    (k as int) < len as int / 8,
            ;
            assert(8 * (len as int / 8) <= len as int);
            assert(i == 8 * (k as int)) by (nonlinear_arith)
                requires
                    i == (k as int) * 8,
            ;
        }
        let x = (bytes[i] as u32) + (bytes[i + 1] as u32) * 256 + (bytes[i + 2] as u32) * 65536 + (
        bytes[i + 3] as u32) * 16777216;
        let y = (bytes[i + 4] as u32) + (bytes[i + 5] as u32) * 256 + (bytes[i + 6] as u32) * 65536
            + (bytes[i + 7] as u32) * 16777216;
        let cell_x = u32_to_i32_bits(x);
        let cell_y = u32_to_i32_bits(y);
        collection.push((cell_x, cell_y));
        proof {
            assert(collection@[k as int] == record_cell_at(bytes@, k as int));
        }
    }
    proof {
        assert(collection@ =~= spec_bytes_to_cells(bytes@));
    }
    collection
}

} // verus!
