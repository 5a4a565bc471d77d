//! Decoding of binary position streams: fixed-size packet records carrying
//! quantised coordinates.
use vstd::prelude::*;

verus! {

/// Bytes in one packet record.
pub const RECORD_SIZE: usize = 8;

/// The unsigned 16-bit integer stored little-endian in two bytes.
pub open spec fn le_u16(lo: u8, hi: u8) -> u16 {
    (lo as int + 256 * (hi as int)) as u16
}

/// The quantised `(x, y)` of each whole record of a stream: the
/// little-endian 16-bit integers at offsets 4 and 6 of the record. Trailing
/// bytes that do not make up a record are ignored.
pub open spec fn record_positions(data: Seq<u8>) -> Seq<(u16, u16)> {
    Seq::new(
        data.len() / (RECORD_SIZE as nat),
        |i: int|
            (
                le_u16(data[8 * i + 4], data[8 * i + 5]),
                le_u16(data[8 * i + 6], data[8 * i + 7]),
            ),
    )
}

/// Reads a little-endian 16-bit integer.
pub fn read_le_u16(lo: u8, hi: u8) -> (r: u16)
    ensures
        r == le_u16(lo, hi),
{
    lo as u16 + (hi as u16) * 256
}

/// The quantised positions of the records of a stream.
pub fn decode_positions(data: &[u8]) -> (r: Vec<(u16, u16)>)
    ensures
        r@ == record_positions(data@),
{
    let n: usize = data.len() / RECORD_SIZE;
    let mut out: Vec<(u16, u16)> = Vec::new();
    let mut i: usize = 0;
    while i < n
        invariant
            n == data@.len() / 8,
            i <= n,
            out@ =~= record_positions(data@).subrange(0, i as int),
        decreases n - i,
    {
        assert(8 * i + 7 < data@.len()) by (nonlinear_arith)
            requires
                i < n,
                n == data@.len() / 8,
        ;
        assert(data@.len() == data.len());
        let offset: usize = i * RECORD_SIZE;
        let x = read_le_u16(data[offset + 4], data[offset + 5]);
        let y = read_le_u16(data[offset + 6], data[offset + 7]);
        out.push((x, y));
        i = i + 1;
    }
    out
}

} // verus!
