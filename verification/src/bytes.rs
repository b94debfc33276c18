use vstd::prelude::*;

verus! {

/// The number that eight bytes spell, most significant byte first.
pub open spec fn be_u64(b: Seq<u8>) -> u64
    recommends
        b.len() == 8,
{
    (b[0] as u64) << 56 | (b[1] as u64) << 48 | (b[2] as u64) << 40 | (b[3] as u64) << 32 | (
    b[4] as u64) << 24 | (b[5] as u64) << 16 | (b[6] as u64) << 8 | (b[7] as u64)
}

/// Byte `k` of a number, counted from the least significant one.
pub open spec fn byte_of(n: u64, k: u64) -> u8 {
    ((n >> (8 * k)) & 0xff) as u8
}

/// The eight bytes that spell a number, most significant byte first.
pub open spec fn be_bytes(n: u64) -> Seq<u8> {
    seq![
        byte_of(n, 7),
        byte_of(n, 6),
        byte_of(n, 5),
        byte_of(n, 4),
        byte_of(n, 3),
        byte_of(n, 2),
        byte_of(n, 1),
        byte_of(n, 0),
    ]
}

/// Reading back the bytes of a number gives the number.
pub proof fn lemma_be_round_trip(n: u64)
    ensures
        be_bytes(n).len() == 8,
        be_u64(be_bytes(n)) == n,
{
    assert((((n >> 56) & 0xff) as u8 as u64) << 56 | (((n >> 48) & 0xff) as u8 as u64) << 48 | (((n
        >> 40) & 0xff) as u8 as u64) << 40 | (((n >> 32) & 0xff) as u8 as u64) << 32 | (((n >> 24)
        & 0xff) as u8 as u64) << 24 | (((n >> 16) & 0xff) as u8 as u64) << 16 | (((n >> 8) & 0xff) as u8 as u64)
        << 8 | (((n >> 0) & 0xff) as u8 as u64) == n) by (bit_vector);
}

/// Spelling the number that eight bytes spell gives the eight bytes.
pub proof fn lemma_be_bytes_of_value(b: Seq<u8>)
    requires
        b.len() == 8,
    ensures
        be_bytes(be_u64(b)) == b,
{
    let (b0, b1, b2, b3, b4, b5, b6, b7) = (b[0], b[1], b[2], b[3], b[4], b[5], b[6], b[7]);
    let n = be_u64(b);
    assert(byte_of(n, 7) == b0 && byte_of(n, 6) == b1 && byte_of(n, 5) == b2 && byte_of(n, 4) == b3
        && byte_of(n, 3) == b4 && byte_of(n, 2) == b5 && byte_of(n, 1) == b6 && byte_of(n, 0)
        == b7) by {
        assert(((n >> 56) & 0xff) as u8 == b0 && ((n >> 48) & 0xff) as u8 == b1 && ((n >> 40)
            & 0xff) as u8 == b2 && ((n >> 32) & 0xff) as u8 == b3 && ((n >> 24) & 0xff) as u8 == b4
            && ((n >> 16) & 0xff) as u8 == b5 && ((n >> 8) & 0xff) as u8 == b6 && ((n >> 0)
            & 0xff) as u8 == b7) by (bit_vector)
            requires
                n == (b0 as u64) << 56 | (b1 as u64) << 48 | (b2 as u64) << 40 | (b3 as u64) << 32
                    | (b4 as u64) << 24 | (b5 as u64) << 16 | (b6 as u64) << 8 | (b7 as u64),
        ;
    }
    assert(be_bytes(n) =~= b);
}

/// Reads the big-endian number that starts at `at`.
pub fn read_be_u64(data: &[u8], at: usize) -> (n: u64)
    requires
        at + 8 <= data@.len(),
    ensures
        n == be_u64(data@.subrange(at as int, at + 8)),
{
    let len: usize = data.len();
    let b0: u64 = data[at] as u64;
    let b1: u64 = data[at + 1] as u64;
    let b2: u64 = data[at + 2] as u64;
    let b3: u64 = data[at + 3] as u64;
    let b4: u64 = data[at + 4] as u64;
    let b5: u64 = data[at + 5] as u64;
    let b6: u64 = data[at + 6] as u64;
    let b7: u64 = data[at + 7] as u64;
    b0 << 56 | b1 << 48 | b2 << 40 | b3 << 32 | b4 << 24 | b5 << 16 | b6 << 8 | b7
}

fn byte_at(n: u64, k: u64) -> (b: u8)
    requires
        k < 8,
    ensures
        b == byte_of(n, k),
{
    let x: u64 = (n >> (8 * k)) & 0xff;
    assert(x < 256) by (bit_vector)
        requires
            x == (n >> (8 * k)) & 0xff,
    ;
    x as u8
}

/// Appends the eight big-endian bytes of `n` to `out`.
pub fn push_be_u64(out: &mut Vec<u8>, n: u64)
    ensures
        final(out)@ == old(out)@ + be_bytes(n),
{
    out.push(byte_at(n, 7));
    out.push(byte_at(n, 6));
    out.push(byte_at(n, 5));
    out.push(byte_at(n, 4));
    out.push(byte_at(n, 3));
    out.push(byte_at(n, 2));
    out.push(byte_at(n, 1));
    out.push(byte_at(n, 0));
    assert(out@ =~= old(out)@ + be_bytes(n));
}

} // verus!
