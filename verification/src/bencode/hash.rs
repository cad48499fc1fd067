//! SHA-1 hashes: the digest of a piece or of the `info` dictionary, and the
//! concatenated hashes of the `pieces` field.
use crate::bencode::decode::string_from_utf8;
use vstd::prelude::*;
use vstd::utf8::{
    decode_utf8_encode_utf8, encode_utf8, is_leading_byte_width_1, partial_valid_utf8,
    partial_valid_utf8_extend_ascii_block, valid_utf8,
};

verus! {

/// A SHA-1 hash: twenty bytes.
#[derive(Clone, Copy, Debug, PartialEq, Eq)]
pub struct Sha1(pub [u8; 20]);

impl View for Sha1 {
    type V = Seq<u8>;

    open spec fn view(&self) -> Seq<u8> {
        self.0@
    }
}

impl DeepView for Sha1 {
    type V = Seq<u8>;

    open spec fn deep_view(&self) -> Seq<u8> {
        self.0@
    }
}

/// The successive twenty-byte chunks of `b`; a shorter tail is left out.
pub open spec fn sha1_chunks(b: Seq<u8>) -> Seq<Seq<u8>> {
    Seq::new(b.len() / 20, |i: int| b.subrange(20 * i, 20 * i + 20))
}

/// The bytes of a list of hashes, one after the other.
pub open spec fn sha1_bytes(l: Seq<Seq<u8>>) -> Seq<u8>
    decreases l.len(),
{
    if l.len() == 0 {
        seq![]
    } else {
        sha1_bytes(l.drop_last()) + l.last()
    }
}

/// The lowercase hexadecimal digit of `n`, for `n < 16`.
pub open spec fn hex_digit(n: int) -> u8 {
    if n < 10 {
        (48 + n) as u8
    } else {
        (87 + n) as u8
    }
}

/// The hexadecimal text of some bytes: two digits per byte, high half first.
pub open spec fn hex_bytes(b: Seq<u8>) -> Seq<u8> {
    Seq::new(
        2 * b.len(),
        |i: int|
            if i % 2 == 0 {
                hex_digit((b[i / 2] / 16) as int)
            } else {
                hex_digit((b[i / 2] % 16) as int)
            },
    )
}

/// The SHA-1 digest of some bytes, as the `rust-crypto` crate computes it.
pub uninterp spec fn sha1_digest(input: Seq<u8>) -> Seq<u8>;

/// Hashes `input` with `crypto::sha1::Sha1`: `Sha1::new`, then
/// `Digest::input`, then `Digest::result` into a buffer of
/// `Digest::output_bytes()` bytes.  Claimed: the buffer holds the named
/// digest of the input, and has twenty bytes (`output_bits` is 160 in the
/// crate's source).  `input` panics when the bit count overflows a `u64`,
/// which `requires` leaves out.
#[verifier::external_body]
fn crypto_sha1_digest(input: &[u8]) -> (r: Vec<u8>)
    requires
        input@.len() * 8 <= u64::MAX,
    ensures
        r@ == sha1_digest(input@),
        r@.len() == 20,
{
    let mut hasher = crypto::sha1::Sha1::new();
    crypto::digest::Digest::input(&mut hasher, input);
    let mut buf: Vec<u8> = vec![0; crypto::digest::Digest::output_bytes(&hasher)];
    crypto::digest::Digest::result(&mut hasher, &mut buf);
    buf
}

/// `<[T]>::swap`: exchanges two elements; it panics on an index out of
/// bounds, which `requires` leaves out.
#[verifier::external_body]
pub(crate) fn slice_swap<T>(list: &mut [T], a: usize, b: usize)
    requires
        a < old(list)@.len(),
        b < old(list)@.len(),
    ensures
        final(list)@ == old(list)@.update(a as int, old(list)@[b as int]).update(
            b as int,
            old(list)@[a as int],
        ),
{
    list.swap(a, b)
}

impl Sha1 {
    /// Computes the SHA-1 hash of `input`.
    pub fn calculate_sha1(input: &[u8]) -> (r: Sha1)
        requires
            input@.len() * 8 <= u64::MAX,
        ensures
            r@ == sha1_digest(input@),
    {
        let buf = crypto_sha1_digest(input);
        let mut list = Sha1::to_sha1list(buf.as_slice());
        assert(buf@.subrange(0, 20) =~= buf@);
        assert(list.deep_view().len() == 1);
        assert(list.deep_view()[0] == list@[0].deep_view());
        list.remove(0)
    }

    /// Returns the SHA1 hash as a string of hexadecimal digits.
    pub fn to_hex(&self) -> (r: String)
        ensures
            encode_utf8(r@) == hex_bytes(self@),
    {
        to_hex(self.0.as_slice())
    }

    /// Splits bytes into hashes of twenty bytes each; a shorter tail is left
    /// out.
    pub fn to_sha1list(bytes: &[u8]) -> (r: Vec<Sha1>)
        ensures
            r.deep_view() == sha1_chunks(bytes@),
    {
        let mut res: Vec<Sha1> = Vec::new();
        let mut i: usize = 0;
        while bytes.len() - i >= 20
            invariant
                i % 20 == 0,
                i <= bytes@.len(),
                res@.len() == i / 20,
                forall|k: int|
                    0 <= k < res@.len() ==> #[trigger] res@[k]@ == bytes@.subrange(
                        20 * k,
                        20 * k + 20,
                    ),
            decreases bytes@.len() - i,
        {
            let mut t = [0u8; 20];
            let mut j: usize = 0;
            while j < 20
                invariant
                    j <= 20,
                    i + 20 <= bytes.len(),
                    forall|m: int| 0 <= m < j ==> #[trigger] t@[m] == bytes@[i + m],
                decreases 20 - j,
            {
                t[j] = bytes[i + j];
                j = j + 1;
            }
            assert(t@ =~= bytes@.subrange(i as int, i + 20));
            res.push(Sha1(t));
            i = i + 20;
        }
        assert(res.deep_view() =~= sha1_chunks(bytes@)) by {
            assert(res@.len() == bytes@.len() / 20);
            assert forall|k: int| 0 <= k < res@.len() implies res.deep_view()[k] == sha1_chunks(
                bytes@,
            )[k] by {
                assert(res.deep_view()[k] == res@[k]@);
            }
        }
        res
    }
}

/// The lowercase hexadecimal digit of `n`.
pub(crate) fn hex_char(n: u8) -> (r: u8)
    requires
        n < 16,
    ensures
        r == hex_digit(n as int),
        r < 128,
{
    if n < 10 {
        48 + n
    } else {
        87 + n
    }
}

/// ASCII bytes are valid UTF-8.
pub(crate) proof fn lemma_ascii_valid(b: Seq<u8>)
    requires
        forall|i: int| 0 <= i < b.len() ==> #[trigger] b[i] < 128,
    ensures
        valid_utf8(b),
{
    assert(b.subrange(0, 0) =~= Seq::<u8>::empty());
    assert(partial_valid_utf8(b, 0));
    assert forall|i: int| 0 <= 0 <= i < b.len() <= b.len() implies #[trigger] is_leading_byte_width_1(
        b[i],
    ) by {
        assert(b[i] < 128);
    }
    partial_valid_utf8_extend_ascii_block(b, 0, b.len() as int);
    assert(b.subrange(0, b.len() as int) =~= b);
}

/// Writes bytes as a string of lowercase hexadecimal digits.
pub fn to_hex(bytes: &[u8]) -> (r: String)
    ensures
        encode_utf8(r@) == hex_bytes(bytes@),
{
    let mut buf: Vec<u8> = Vec::new();
    let mut i: usize = 0;
    while i < bytes.len()
        invariant
            i <= bytes@.len(),
            buf@ == hex_bytes(bytes@.take(i as int)),
            forall|k: int| 0 <= k < buf@.len() ==> #[trigger] buf@[k] < 128,
        decreases bytes@.len() - i,
    {
        let b = bytes[i];
        buf.push(hex_char(b / 16));
        buf.push(hex_char(b % 16));
        assert(buf@ =~= hex_bytes(bytes@.take(i + 1))) by {
            let t = bytes@.take(i + 1);
            assert forall|k: int| 0 <= k < 2 * t.len() implies buf@[k] == hex_bytes(t)[k] by {
                assert(t[k / 2] == bytes@[k / 2]);
                if k < 2 * i {
                    assert(bytes@.take(i as int)[k / 2] == bytes@[k / 2]);
                }
            }
        }
        i = i + 1;
    }
    assert(bytes@.take(bytes@.len() as int) =~= bytes@);
    proof {
        lemma_ascii_valid(buf@);
        decode_utf8_encode_utf8(buf@);
    }
    match string_from_utf8(buf) {
        Ok(s) => s,
        Err(_) => {
            assert(false);
            String::new()
        },
    }
}

/// Moves the element at `n` to the front, shifting the elements before it
/// back by one; `n == 0` leaves the list as it is.
pub open spec fn to_head<T>(l: Seq<T>, n: int) -> Seq<T> {
    if 0 <= n < l.len() {
        seq![l[n]] + l.take(n) + l.skip(n + 1)
    } else {
        l
    }
}

/// Moves the `n`th element of `list` to its head, by swapping it forward
/// one place at a time.
pub fn swap_to_head<T>(list: &mut [T], n: usize)
    requires
        n == 0 || n < old(list)@.len(),
    ensures
        final(list)@ == to_head(old(list)@, n as int),
{
    let ghost orig = list@;
    if n == 0 {
        proof {
            if orig.len() > 0 {
                assert(orig =~= seq![orig[0]] + orig.take(0) + orig.skip(1));
            }
        }
        return ;
    }
    let ghost x = orig[n as int];
    assert(orig =~= orig.take(n as int) + seq![x] + orig.take(n as int).skip(n as int) + orig.skip(
        n + 1,
    ));
    let mut i: usize = 0;
    while i < n
        invariant
            0 < n < orig.len(),
            x == orig[n as int],
            i <= n,
            list@.len() == orig.len(),
            list@ == orig.take(n - i) + seq![x] + orig.take(n as int).skip(n - i) + orig.skip(
                n + 1,
            ),
        decreases n - i,
    {
        let ghost before = list@;
        let ghost j = n - i;
        slice_swap(list, n - i, n - i - 1);
        let ghost after = orig.take(j - 1) + seq![x] + orig.take(n as int).skip(j - 1) + orig.skip(
            n + 1,
        );
        assert(list@ =~= after) by {
            assert forall|k: int| 0 <= k < list@.len() implies list@[k] == after[k] by {
                if k < j - 1 {
                    assert(before[k] == orig[k]);
                } else if k == j - 1 {
                    assert(before[j] == x);
                } else if k == j {
                    assert(before[j - 1] == orig[j - 1]);
                } else if k <= n {
                    assert(before[k] == orig[k - 1]);
                } else {
                    assert(before[k] == orig[k]);
                }
            }
        }
        i = i + 1;
    }
    assert(list@ =~= seq![x] + orig.take(n as int) + orig.skip(n + 1));
}

} // verus!
