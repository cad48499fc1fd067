//! Our peer id: a fixed client prefix, then random letters and digits.
use crate::base::download::{push_text, text_string};
use vstd::prelude::*;
use vstd::utf8::{encode_utf8, encode_utf8_decode_utf8, valid_utf8};

verus! {

/// The prefix of our peer id: the client and its version.
pub const PEER_ID_PREFIX: &'static str = "-RC0001-";

/// An ASCII letter or digit.
pub open spec fn is_alphanumeric(c: char) -> bool {
    ('A' <= c <= 'Z') || ('a' <= c <= 'z') || ('0' <= c <= '9')
}

/// `n` characters of `rand::Rng::gen_ascii_chars` on the thread's
/// generator: each is drawn from the ASCII letters and digits.  Which ones
/// is left to chance.
#[verifier::external_body]
fn random_ascii_chars(n: usize) -> (r: String)
    ensures
        r@.len() == n,
        forall|i: int| 0 <= i < n ==> is_alphanumeric(#[trigger] r@[i]),
{
    rand::Rng::gen_ascii_chars(&mut rand::thread_rng()).take(n).collect()
}

/// The encoding of two strings one after the other is the encodings one
/// after the other.
pub proof fn lemma_encode_concat(a: Seq<char>, b: Seq<char>)
    ensures
        encode_utf8(a + b) == encode_utf8(a) + encode_utf8(b),
    decreases a.len(),
{
    if a.len() == 0 {
        assert(a + b =~= b);
        assert(encode_utf8(a) =~= Seq::<u8>::empty());
        assert(encode_utf8(a) + encode_utf8(b) =~= encode_utf8(b));
    } else {
        lemma_encode_concat(a.drop_first(), b);
        assert((a + b).drop_first() =~= a.drop_first() + b);
        assert((a + b)[0] == a[0]);
        assert(encode_utf8(a + b) =~= encode_utf8(a) + encode_utf8(b));
    }
}

/// The peer id made of the prefix and the given characters.
pub fn peer_id_from(chars: &str) -> (r: String)
    ensures
        r@ == PEER_ID_PREFIX@ + chars@,
{
    let mut out: Vec<u8> = Vec::new();
    assert(valid_utf8(out@)) by {
        assert(out@.len() == 0);
    }
    push_text(&mut out, PEER_ID_PREFIX);
    push_text(&mut out, chars);
    let ghost whole = PEER_ID_PREFIX@ + chars@;
    proof {
        lemma_encode_concat(PEER_ID_PREFIX@, chars@);
        assert(out@ =~= encode_utf8(whole));
    }
    let r = text_string(out);
    proof {
        encode_utf8_decode_utf8(r@);
        encode_utf8_decode_utf8(whole);
    }
    r
}

/// A fresh peer id: the prefix, then twelve random letters and digits,
/// as `peer_id_from` puts them together.
pub fn generate_peer_id() -> (r: String)
    ensures
        r@.len() == 20,
        r@.take(8) == PEER_ID_PREFIX@,
        forall|i: int| 8 <= i < 20 ==> is_alphanumeric(#[trigger] r@[i]),
{
    proof {
        reveal_strlit("-RC0001-");
    }
    let rand_chars = random_ascii_chars(12);
    let r = peer_id_from(rand_chars.as_str());
    proof {
        assert(r@.take(8) =~= PEER_ID_PREFIX@);
        assert forall|i: int| 8 <= i < 20 implies is_alphanumeric(#[trigger] r@[i]) by {
            assert(r@[i] == rand_chars@[i - 8]);
        }
    }
    r
}

} // verus!
