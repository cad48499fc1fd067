//! The bitfield message: which pieces a peer has, one bit per piece, the
//! first piece in the high bit of the first byte.
use vstd::prelude::*;

verus! {

/// Whether bit `j` of `byte` is set, counting from the high bit.
pub open spec fn has_bit(byte: u8, j: int) -> bool {
    byte & (1u8 << ((7 - j) as u8)) != 0
}

/// `bytes` is the bitfield of `has`: one bit per piece, the rest clear.
pub open spec fn is_bitfield_of(bytes: Seq<u8>, has: Seq<bool>) -> bool {
    &&& bytes.len() == (has.len() + 7) / 8
    &&& forall|i: int|
        0 <= i < 8 * bytes.len() ==> has_bit(#[trigger] bytes[i / 8], i % 8) == (i < has.len()
            && has[i])
}

/// The pieces that the first `n` bits of a bitfield say a peer has.
pub open spec fn pieces_of(bytes: Seq<u8>, n: int) -> Seq<bool> {
    Seq::new(n as nat, |i: int| has_bit(bytes[i / 8], i % 8))
}

proof fn lemma_set_bit(b: u8, j: u8, k: u8)
    requires
        j < 8,
        k < 8,
    ensures
        (b | (1u8 << (7 - j) as u8)) & (1u8 << (7 - k) as u8) != 0 <==> (b & (1u8 << (7
            - k) as u8) != 0 || j == k),
{
    assert((b | (1u8 << (7 - j) as u8)) & (1u8 << (7 - k) as u8) != 0 <==> (b & (1u8 << (7
        - k) as u8) != 0 || j == k)) by (bit_vector)
        requires
            j < 8,
            k < 8,
    ;
}

proof fn lemma_zero_bits(k: u8)
    requires
        k < 8,
    ensures
        0u8 & (1u8 << (7 - k) as u8) == 0,
{
    assert(0u8 & (1u8 << (7 - k) as u8) == 0) by (bit_vector);
}

/// The bitfield of the pieces a peer has.
pub fn bitfield_bytes(has_pieces: &[bool]) -> (r: Vec<u8>)
    ensures
        is_bitfield_of(r@, has_pieces@),
{
    let n = has_pieces.len();
    let len = n / 8 + if n % 8 > 0 {
        1
    } else {
        0
    };
    let mut bytes: Vec<u8> = Vec::new();
    let mut k: usize = 0;
    while k < len
        invariant
            k <= len,
            bytes@.len() == k,
            forall|m: int| 0 <= m < k ==> #[trigger] bytes@[m] == 0,
        decreases len - k,
    {
        bytes.push(0);
        k = k + 1;
    }
    assert forall|i: int| 0 <= i < 8 * bytes@.len() implies has_bit(#[trigger] bytes@[i / 8], i % 8)
        == (i < 0 && has_pieces@[i]) by {
        lemma_zero_bits((i % 8) as u8);
    }
    let mut i: usize = 0;
    while i < n
        invariant
            n == has_pieces@.len(),
            i <= n,
            bytes@.len() == len,
            len == (n + 7) / 8,
            forall|m: int|
                0 <= m < 8 * bytes@.len() ==> has_bit(#[trigger] bytes@[m / 8], m % 8) == (m < i
                    && has_pieces@[m]),
        decreases n - i,
    {
        if has_pieces[i] {
            let bytes_index = i / 8;
            let index_into_byte = i % 8;
            let mask: u8 = 1u8 << (7 - index_into_byte as u8);
            let ghost before = bytes@;
            let b = bytes[bytes_index] | mask;
            bytes.set(bytes_index, b);
            assert forall|m: int| 0 <= m < 8 * bytes@.len() implies has_bit(
                #[trigger] bytes@[m / 8],
                m % 8,
            ) == (m < i + 1 && has_pieces@[m]) by {
                if m / 8 == bytes_index {
                    lemma_set_bit(before[m / 8], index_into_byte as u8, (m % 8) as u8);
                    assert(has_bit(before[m / 8], m % 8) == (m < i && has_pieces@[m]));
                } else {
                    assert(bytes@[m / 8] == before[m / 8]);
                    assert(has_bit(before[m / 8], m % 8) == (m < i && has_pieces@[m]));
                }
            }
        }
        i = i + 1;
    }
    bytes
}

/// The pieces that a bitfield says a peer has, for a torrent of `n` pieces.
pub fn bitfield_pieces(bytes: &[u8], n: usize) -> (r: Vec<bool>)
    requires
        n <= 8 * bytes@.len(),
    ensures
        r@ == pieces_of(bytes@, n as int),
{
    let mut res: Vec<bool> = Vec::new();
    let mut have_index: usize = 0;
    while have_index < n
        invariant
            have_index <= n,
            n <= 8 * bytes@.len(),
            res@ == pieces_of(bytes@, have_index as int),
        decreases n - have_index,
    {
        let bytes_index = have_index / 8;
        let index_into_byte = have_index % 8;
        let byte = bytes[bytes_index];
        let mask: u8 = 1u8 << (7 - index_into_byte as u8);
        let value = (byte & mask) != 0;
        res.push(value);
        assert(res@ =~= pieces_of(bytes@, have_index + 1));
        have_index = have_index + 1;
    }
    res
}

/// Reading a bitfield back gives the pieces it was made from.
pub proof fn lemma_bitfield_round_trip(bytes: Seq<u8>, has: Seq<bool>)
    requires
        is_bitfield_of(bytes, has),
    ensures
        has.len() <= 8 * bytes.len(),
        pieces_of(bytes, has.len() as int) == has,
{
    assert forall|i: int| 0 <= i < has.len() implies pieces_of(bytes, has.len() as int)[i]
        == has[i] by {
        assert(has_bit(bytes[i / 8], i % 8) == (i < has.len() && has[i]));
    }
    assert(pieces_of(bytes, has.len() as int) =~= has);
}

} // verus!
