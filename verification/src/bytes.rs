//! Big-endian integers on the wire: what eight bytes spell, and the calls
//! that read and write them.

use byteorder::{BigEndian, ReadBytesExt, WriteBytesExt};
use std::io::Cursor;
use vstd::prelude::*;

verus! {

/// The unsigned number that eight bytes spell, most significant byte first.
pub open spec fn be_u64(b: Seq<u8>) -> int
    recommends
        b.len() == 8,
{
    b[0] * 0x0100_0000_0000_0000int + b[1] * 0x0001_0000_0000_0000int + b[2]
        * 0x0000_0100_0000_0000int + b[3] * 0x0000_0001_0000_0000int + b[4] * 0x0100_0000int + b[5]
        * 0x0001_0000int + b[6] * 0x0100int + b[7]
}

/// The signed number that eight bytes spell in two's complement, most
/// significant byte first.
pub open spec fn be_i64(b: Seq<u8>) -> int
    recommends
        b.len() == 8,
{
    let n: int = be_u64(b);
    if n >= 0x8000_0000_0000_0000int {
        n - 0x1_0000_0000_0000_0000int
    } else {
        n
    }
}

/// The eight bytes of an unsigned number, most significant byte first.
#[verifier::opaque]
pub open spec fn u64_be_bytes(x: u64) -> Seq<u8> {
    seq![
        (x / 0x0100_0000_0000_0000) as u8,
        (x / 0x0001_0000_0000_0000 % 256) as u8,
        (x / 0x0000_0100_0000_0000 % 256) as u8,
        (x / 0x0000_0001_0000_0000 % 256) as u8,
        (x / 0x0100_0000 % 256) as u8,
        (x / 0x0001_0000 % 256) as u8,
        (x / 0x0100 % 256) as u8,
        (x % 256) as u8,
    ]
}

/// The unsigned number with the same 64 bits as a signed one.
pub open spec fn twos_complement(x: i64) -> u64 {
    if x < 0 {
        (x + 0x1_0000_0000_0000_0000int) as u64
    } else {
        x as u64
    }
}

/// The eight bytes of a signed number in two's complement, most significant
/// byte first.
pub open spec fn i64_be_bytes(x: i64) -> Seq<u8> {
    u64_be_bytes(twos_complement(x))
}

/// Eight bytes always spell a number that fits in 64 bits.
pub proof fn lemma_be_u64_range(b: Seq<u8>)
    requires
        b.len() == 8,
    ensures
        0 <= be_u64(b) <= u64::MAX,
        i64::MIN <= be_i64(b) <= i64::MAX,
{
}

/// Reading back the bytes of an unsigned number gives the number.
pub proof fn lemma_u64_round_trip(x: u64)
    ensures
        u64_be_bytes(x).len() == 8,
        be_u64(u64_be_bytes(x)) == x,
{
    reveal(u64_be_bytes);
    let q1: u64 = x / 0x100;
    let q2: u64 = q1 / 0x100;
    let q3: u64 = q2 / 0x100;
    let q4: u64 = q3 / 0x100;
    let q5: u64 = q4 / 0x100;
    let q6: u64 = q5 / 0x100;
    let q7: u64 = q6 / 0x100;
    assert(x / 0x0001_0000 == q2) by (bit_vector)
        requires
            q2 == x / 0x100 / 0x100,
    ;
    assert(x / 0x0100_0000 == q3) by (bit_vector)
        requires
            q3 == x / 0x100 / 0x100 / 0x100,
    ;
    assert(x / 0x0000_0001_0000_0000 == q4) by (bit_vector)
        requires
            q4 == x / 0x100 / 0x100 / 0x100 / 0x100,
    ;
    assert(x / 0x0000_0100_0000_0000 == q5) by (bit_vector)
        requires
            q5 == x / 0x100 / 0x100 / 0x100 / 0x100 / 0x100,
    ;
    assert(x / 0x0001_0000_0000_0000 == q6) by (bit_vector)
        requires
            q6 == x / 0x100 / 0x100 / 0x100 / 0x100 / 0x100 / 0x100,
    ;
    assert(x / 0x0100_0000_0000_0000 == q7) by (bit_vector)
        requires
            q7 == x / 0x100 / 0x100 / 0x100 / 0x100 / 0x100 / 0x100 / 0x100,
    ;
    assert(q7 < 0x100) by (bit_vector)
        requires
            q7 == x / 0x100 / 0x100 / 0x100 / 0x100 / 0x100 / 0x100 / 0x100,
    ;
}

/// Reading back the bytes of a signed number gives the number.
pub proof fn lemma_i64_round_trip(x: i64)
    ensures
        i64_be_bytes(x).len() == 8,
        be_i64(i64_be_bytes(x)) == x,
{
    lemma_u64_round_trip(twos_complement(x));
}

/// The error type of `std::io`, carried through unread.
#[verifier::external_type_specification]
#[verifier::external_body]
pub struct ExIoError(std::io::Error);

/// `ReadBytesExt::read_u64::<BigEndian>` on a cursor at the start of `v`:
/// with eight bytes or more it yields the number that the first eight spell,
/// with fewer it fails.
#[verifier::external_body]
pub(crate) fn read_u64_be(v: Vec<u8>) -> (r: Result<u64, std::io::Error>)
    ensures
        v@.len() >= 8 ==> r is Ok && r->Ok_0 == be_u64(v@.take(8)),
        v@.len() < 8 ==> r is Err,
{
    let mut rdr = Cursor::new(v);
    rdr.read_u64::<BigEndian>()
}

/// `ReadBytesExt::read_i64::<BigEndian>` on a cursor at the start of `v`:
/// with eight bytes or more it yields the two's-complement number that the
/// first eight spell, with fewer it fails.
#[verifier::external_body]
pub(crate) fn read_i64_be(v: Vec<u8>) -> (r: Result<i64, std::io::Error>)
    ensures
        v@.len() >= 8 ==> r is Ok && r->Ok_0 == be_i64(v@.take(8)),
        v@.len() < 8 ==> r is Err,
{
    let mut rdr = Cursor::new(v);
    rdr.read_i64::<BigEndian>()
}

/// `WriteBytesExt::write_u64::<BigEndian>` on a vector: it appends the eight
/// bytes of `n`, and writing to a vector does not fail.
#[verifier::external_body]
pub(crate) fn write_u64_be(wtr: &mut Vec<u8>, n: u64)
    ensures
        final(wtr)@ == old(wtr)@ + u64_be_bytes(n),
{
    wtr.write_u64::<BigEndian>(n).unwrap();
}

/// `WriteBytesExt::write_i64::<BigEndian>` on a vector: it appends the eight
/// two's-complement bytes of `n`, and writing to a vector does not fail.
#[verifier::external_body]
pub(crate) fn write_i64_be(wtr: &mut Vec<u8>, n: i64)
    ensures
        final(wtr)@ == old(wtr)@ + i64_be_bytes(n),
{
    wtr.write_i64::<BigEndian>(n).unwrap();
}

} // verus!
