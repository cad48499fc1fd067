//! Asking a tracker for peers: the announce URL, the order in which the
//! trackers of a tier are tried, and whether a tracker is of use.
use crate::base::download::{push_text, text_string};
use crate::bencode::encode::push_decimal;
use crate::bencode::grammar::decimal;
use crate::bencode::hash::{lemma_ascii_valid, slice_swap};
use crate::bencode::roundtrip::lemma_decimal;
use vstd::multiset::Multiset;
use vstd::prelude::*;
use vstd::utf8::{decode_utf8, encode_utf8, encode_utf8_decode_utf8, valid_utf8, valid_utf8_concat};

verus! {

/// Whether percent encoding leaves a byte as it is.
pub open spec fn form_unchanged(b: u8) -> bool {
    b == 42 || b == 45 || b == 46 || b == 95 || (48 <= b <= 57) || (65 <= b <= 90) || (97 <= b
        <= 122)
}

/// The uppercase hexadecimal digit of `n`, for `n < 16`.
pub open spec fn upper_hex(n: int) -> u8 {
    if n < 10 {
        (48 + n) as u8
    } else {
        (55 + n) as u8
    }
}

/// The percent encoding of one byte: bytes in `*-._`, digits and ASCII
/// letters stay, every other byte becomes `%` and two uppercase
/// hexadecimal digits.
pub open spec fn percent_byte(b: u8) -> Seq<u8> {
    if form_unchanged(b) {
        seq![b]
    } else {
        seq![37u8, upper_hex((b / 16) as int), upper_hex((b % 16) as int)]
    }
}

/// The percent encoding of some bytes, byte by byte.
pub open spec fn percent_encoded(b: Seq<u8>) -> Seq<u8>
    decreases b.len(),
{
    if b.len() == 0 {
        seq![]
    } else {
        percent_encoded(b.drop_last()) + percent_byte(b.last())
    }
}

/// What percent encoding writes for each byte: the bytes `*`, `-`, `.`,
/// `_`, the ASCII digits and the ASCII letters as they are; every other
/// byte as `%` and its two uppercase hexadecimal digits, high half first.
/// Encodings of pieces join: the encoding of two byte strings one after the
/// other is their encodings one after the other.  So no `&`, `=`, `+`,
/// space or `#` is ever written as it is, and a `%` only starts an escape.
pub proof fn lemma_percent_encoding(b: u8, x: Seq<u8>, y: Seq<u8>)
    ensures
        (b == 42 || b == 45 || b == 46 || b == 95 || (48 <= b <= 57) || (65 <= b <= 90) || (97
            <= b <= 122)) ==> percent_encoded(seq![b]) == seq![b],
        !(b == 42 || b == 45 || b == 46 || b == 95 || (48 <= b <= 57) || (65 <= b <= 90) || (97
            <= b <= 122)) ==> percent_encoded(seq![b]) == seq![
            37u8,
            (if b / 16 < 10 { 48 + b / 16 } else { 55 + b / 16 }) as u8,
            (if b % 16 < 10 { 48 + b % 16 } else { 55 + b % 16 }) as u8,
        ],
        percent_encoded(x + y) == percent_encoded(x) + percent_encoded(y),
        forall|k: int|
            0 <= k < percent_encoded(x).len() ==> {
                let c = #[trigger] percent_encoded(x)[k];
                c != 38 && c != 61 && c != 43 && c != 32 && c != 35
            },
    decreases y.len(),
{
    assert(seq![b].drop_last() =~= Seq::<u8>::empty());
    assert(percent_encoded(Seq::<u8>::empty()) == Seq::<u8>::empty());
    assert(percent_encoded(seq![b]) =~= percent_byte(b));
    if y.len() == 0 {
        assert(x + y =~= x);
        assert(percent_encoded(x) + percent_encoded(y) =~= percent_encoded(x));
    } else {
        lemma_percent_encoding(b, x, y.drop_last());
        assert((x + y).drop_last() =~= x + y.drop_last());
        assert((x + y).last() == y.last());
    }
    lemma_percent_no_delimiters(x);
}

/// Percent encoding never writes a delimiter of a query as it is.
proof fn lemma_percent_no_delimiters(x: Seq<u8>)
    ensures
        forall|k: int|
            0 <= k < percent_encoded(x).len() ==> {
                let c = #[trigger] percent_encoded(x)[k];
                c != 38 && c != 61 && c != 43 && c != 32 && c != 35
            },
    decreases x.len(),
{
    if x.len() > 0 {
        lemma_percent_no_delimiters(x.drop_last());
        let a = percent_encoded(x.drop_last());
        let e = percent_byte(x.last());
        assert forall|k: int| 0 <= k < percent_encoded(x).len() implies {
            let c = #[trigger] percent_encoded(x)[k];
            c != 38 && c != 61 && c != 43 && c != 32 && c != 35
        } by {
            if k >= a.len() {
                assert(percent_encoded(x)[k] == e[k - a.len()]);
            } else {
                assert(percent_encoded(x)[k] == a[k]);
            }
        }
    }
}

/// The uppercase hexadecimal digit of `n`.
fn upper_hex_char(n: u8) -> (r: u8)
    requires
        n < 16,
    ensures
        r == upper_hex(n as int),
        r < 128,
{
    if n < 10 {
        48 + n
    } else {
        55 + n
    }
}

/// Percent-encodes bytes for the query of a URL, with the encode set of
/// form data: bytes in `*-._`, digits and ASCII letters stay, every other
/// byte, a space too, becomes `%` and two uppercase hexadecimal digits.
pub fn percent_encode(bytes: &[u8]) -> (r: String)
    ensures
        encode_utf8(r@) == percent_encoded(bytes@),
{
    let mut out: Vec<u8> = Vec::new();
    let mut i: usize = 0;
    assert(bytes@.take(0) =~= Seq::<u8>::empty());
    while i < bytes.len()
        invariant
            i <= bytes@.len(),
            out@ == percent_encoded(bytes@.take(i as int)),
            forall|k: int| 0 <= k < out@.len() ==> #[trigger] out@[k] < 128,
        decreases bytes@.len() - i,
    {
        let b = bytes[i];
        let ghost before = out@;
        if b == 42 || b == 45 || b == 46 || b == 95 || (48 <= b && b <= 57) || (65 <= b && b <= 90)
            || (97 <= b && b <= 122) {
            out.push(b);
        } else {
            out.push(37);
            out.push(upper_hex_char(b / 16));
            out.push(upper_hex_char(b % 16));
        }
        assert(out@ =~= before + percent_byte(b));
        assert(bytes@.take(i + 1).drop_last() =~= bytes@.take(i as int));
        assert(bytes@.take(i + 1).last() == b);
        i = i + 1;
    }
    assert(bytes@.take(bytes@.len() as int) =~= bytes@);
    proof {
        lemma_ascii_valid(out@);
    }
    text_string(out)
}

/// The text of one query parameter: its key, `=`, its value.
pub open spec fn param_text(p: (Seq<char>, Seq<char>)) -> Seq<u8> {
    encode_utf8(p.0) + seq![61u8] + encode_utf8(p.1)
}

/// The text of query parameters, joined by `&`.
pub open spec fn query_text(params: Seq<(Seq<char>, Seq<char>)>) -> Seq<u8>
    decreases params.len(),
{
    if params.len() == 0 {
        seq![]
    } else if params.len() == 1 {
        param_text(params[0])
    } else {
        query_text(params.drop_last()) + seq![38u8] + param_text(params.last())
    }
}

/// The views of query parameters.
pub open spec fn params_view(params: Seq<(&str, &str)>) -> Seq<(Seq<char>, Seq<char>)> {
    params.map_values(|p: (&str, &str)| (p.0@, p.1@))
}

proof fn lemma_ascii_byte_valid(b: u8)
    requires
        b < 128,
    ensures
        valid_utf8(seq![b]),
{
    lemma_ascii_valid(seq![b]);
}

/// Joins query parameters as `key=value`, separated by `&`.
pub fn encode_query_params(params: &[(&str, &str)]) -> (r: String)
    ensures
        encode_utf8(r@) == query_text(params_view(params@)),
{
    let mut out: Vec<u8> = Vec::new();
    let mut i: usize = 0;
    assert(valid_utf8(out@)) by {
        assert(out@.len() == 0);
    }
    let ghost pv = params_view(params@);
    assert(pv.take(0) =~= Seq::<(Seq<char>, Seq<char>)>::empty());
    while i < params.len()
        invariant
            i <= params@.len(),
            pv == params_view(params@),
            out@ == query_text(pv.take(i as int)),
            valid_utf8(out@),
        decreases params@.len() - i,
    {
        let (k, v) = params[i];
        let ghost start = out@;
        if i > 0 {
            out.push(38);
            proof {
                lemma_ascii_byte_valid(38);
                valid_utf8_concat(start, seq![38u8]);
                assert(out@ =~= start + seq![38u8]);
            }
        }
        push_text(&mut out, k);
        let ghost mid = out@;
        out.push(61);
        proof {
            lemma_ascii_byte_valid(61);
            valid_utf8_concat(mid, seq![61u8]);
            assert(out@ =~= mid + seq![61u8]);
        }
        push_text(&mut out, v);
        assert(pv.take(i + 1).drop_last() =~= pv.take(i as int));
        assert(pv[i as int] == (k@, v@));
        assert(out@ =~= query_text(pv.take(i + 1)));
        i = i + 1;
    }
    assert(pv.take(i as int) =~= pv);
    text_string(out)
}

/// The decimal text of a number, as a string.
fn decimal_string(n: u64) -> (r: String)
    ensures
        encode_utf8(r@) == decimal(n as nat),
{
    let mut out: Vec<u8> = Vec::new();
    push_decimal(&mut out, n as u128);
    assert(out@ =~= decimal(n as nat));
    proof {
        lemma_decimal(n as nat);
        assert forall|i: int| 0 <= i < out@.len() implies #[trigger] out@[i] < 128 by {
            assert(crate::bencode::grammar::is_digit(out@[i]));
        }
        lemma_ascii_valid(out@);
    }
    text_string(out)
}

/// The query parameters of an announce.
pub open spec fn announce_params(
    peer_id: Seq<char>,
    length: u64,
    info_hash: Seq<u8>,
    listener_port: u16,
) -> Seq<(Seq<char>, Seq<char>)> {
    seq![
        ("left"@, decode_utf8(decimal(length as nat))),
        ("info_hash"@, decode_utf8(percent_encoded(info_hash))),
        ("downloaded"@, "0"@),
        ("uploaded"@, "0"@),
        ("event"@, "started"@),
        ("peer_id"@, peer_id),
        ("compact"@, "1"@),
        ("port"@, decode_utf8(decimal(listener_port as nat))),
    ]
}

/// The text of the announce URL: the tracker's URL, `?`, then the query.
pub open spec fn announce_text(
    announce: Seq<char>,
    peer_id: Seq<char>,
    length: u64,
    info_hash: Seq<u8>,
    listener_port: u16,
) -> Seq<u8> {
    encode_utf8(announce) + seq![63u8] + query_text(
        announce_params(peer_id, length, info_hash, listener_port),
    )
}

/// The URL that announces a download to a tracker: what is left to fetch
/// (all of it), the info hash, nothing downloaded or uploaded yet, our peer
/// id, compact peers wanted, and our port.
pub fn announce_url(
    announce: &str,
    peer_id: &str,
    length: u64,
    info_hash: &[u8],
    listener_port: u16,
) -> (r: String)
    ensures
        encode_utf8(r@) == announce_text(announce@, peer_id@, length, info_hash@, listener_port),
{
    let length_string = decimal_string(length);
    let encoded_info_hash = percent_encode(info_hash);
    let listener_port_string = decimal_string(listener_port as u64);
    let params: Vec<(&str, &str)> = vec![
        ("left", length_string.as_str()),
        ("info_hash", encoded_info_hash.as_str()),
        ("downloaded", "0"),
        ("uploaded", "0"),
        ("event", "started"),
        ("peer_id", peer_id),
        ("compact", "1"),
        ("port", listener_port_string.as_str()),
    ];
    let query = encode_query_params(params.as_slice());
    let mut out: Vec<u8> = Vec::new();
    assert(valid_utf8(out@)) by {
        assert(out@.len() == 0);
    }
    push_text(&mut out, announce);
    let ghost mid = out@;
    out.push(63);
    proof {
        lemma_ascii_byte_valid(63);
        valid_utf8_concat(mid, seq![63u8]);
        assert(out@ =~= mid + seq![63u8]);
    }
    push_text(&mut out, query.as_str());
    proof {
        encode_utf8_decode_utf8(length_string@);
        encode_utf8_decode_utf8(encoded_info_hash@);
        encode_utf8_decode_utf8(listener_port_string@);
        assert(params_view(params@) =~= announce_params(peer_id@, length, info_hash@, listener_port));
        assert(out@ =~= announce_text(announce@, peer_id@, length, info_hash@, listener_port));
    }
    text_string(out)
}

/// `rand::thread_rng().gen_range(0, k)`: a number below `k`, drawn at
/// random; `gen_range` panics on an empty range, which `requires` leaves
/// out.  Nothing more is claimed of the number.
#[verifier::external_body]
fn random_below(k: usize) -> (r: usize)
    requires
        k > 0,
    ensures
        r < k,
{
    rand::Rng::gen_range(&mut rand::thread_rng(), 0, k)
}

/// Swapping two elements keeps the same elements.
proof fn lemma_swap_multiset<T>(s: Seq<T>, a: int, b: int)
    requires
        0 <= a < s.len(),
        0 <= b < s.len(),
    ensures
        s.update(a, s[b]).update(b, s[a]).to_multiset() == s.to_multiset(),
{
    broadcast use vstd::multiset::group_multiset_axioms;

    let s1 = s.update(a, s[b]);
    let m = s.to_multiset();
    vstd::seq_lib::to_multiset_update(s, a, s[b]);
    vstd::seq_lib::to_multiset_update(s1, b, s[a]);
    vstd::seq_lib::to_multiset_contains(s, s[a]);
    vstd::seq_lib::to_multiset_contains(s, s[b]);
    assert(s.contains(s[a]));
    assert(s.contains(s[b]));
    assert(s1[b] == s[b]);
    assert forall|x: T| #[trigger] s1.update(b, s[a]).to_multiset().count(x) == m.count(x) by {
        assert(s1.update(b, s[a]).to_multiset() == m.insert(s[b]).remove(s[a]).insert(s[a]).remove(
            s[b],
        ));
    }
    assert(s1.update(b, s[a]).to_multiset() =~= m);
}

/// `after` is `before` with its elements moved: place `x` of `after`
/// holds the element at place `p[x]` of `before`, each place taken once.
pub open spec fn permuted_by<T>(before: Seq<T>, after: Seq<T>, p: Seq<int>) -> bool {
    &&& p.len() == before.len()
    &&& after.len() == before.len()
    &&& forall|x: int| 0 <= x < p.len() ==> 0 <= #[trigger] p[x] < p.len() && after[x] == before[p[x]]
    &&& forall|x: int, y: int| 0 <= x < p.len() && 0 <= y < p.len() && x != y ==> #[trigger] p[x] != #[trigger] p[y]
}

/// `after` holds the elements of `before`, moved so that, when there are
/// two or more, each place takes its element from another place.
pub open spec fn shuffled<T>(before: Seq<T>, after: Seq<T>) -> bool {
    exists|p: Seq<int>|
        #[trigger] permuted_by(before, after, p) && (before.len() >= 2 ==> forall|x: int|
            0 <= x < p.len() ==> #[trigger] p[x] != x)
}

/// The list after the first `i` swaps of a shuffle with the places drawn
/// in `draws`: swap `t` exchanges the place `len - 1 - t` with the place
/// `draws[t]`.
pub open spec fn after_swaps<T>(s: Seq<T>, draws: Seq<usize>, i: int) -> Seq<T>
    decreases i,
{
    if i <= 0 {
        s
    } else {
        let t = after_swaps(s, draws, i - 1);
        let k = s.len() - i;
        let j = draws[i - 1] as int;
        t.update(k, t[j]).update(j, t[k])
    }
}

/// Whether `draws` are the draws of a shuffle of `n` elements: one per
/// place from the last down to the second, each a place before it.
pub open spec fn valid_draws(draws: Seq<usize>, n: int) -> bool {
    &&& draws.len() == n - 1
    &&& forall|t: int| 0 <= t < draws.len() ==> #[trigger] draws[t] < n - 1 - t
}

/// Shuffles a list with the given draws: each place from the last down to
/// the second exchanges its element with the one at the drawn place before
/// it.  The list keeps its elements, and, as each place draws from the
/// places strictly before it, no element stays where it was.
pub fn shuffle_with<T>(list: &mut [T], draws: &[usize])
    requires
        old(list)@.len() >= 1,
        valid_draws(draws@, old(list)@.len() as int),
    ensures
        final(list)@ == after_swaps(old(list)@, draws@, old(list)@.len() - 1),
        final(list)@.len() == old(list)@.len(),
        final(list)@.to_multiset() == old(list)@.to_multiset(),
        shuffled(old(list)@, final(list)@),
{
    let n = list.len();
    let mut i: usize = 0;
    let ghost mut p: Seq<int> = Seq::new(n as nat, |x: int| x);
    let ghost mut last_j: int = 0;
    while i < n - 1
        invariant
            n == list@.len(),
            n >= 1,
            i <= n - 1,
            list@.to_multiset() == old(list)@.to_multiset(),
            list@ == after_swaps(old(list)@, draws@, i as int),
            valid_draws(draws@, n as int),
            permuted_by(old(list)@, list@, p),
            forall|x: int| n - 1 - i < x < n ==> #[trigger] p[x] != x,
            forall|x: int| 0 <= x <= n - 1 - i ==> #[trigger] p[x] == x || p[x] > n - 1 - i,
            i >= 1 ==> 0 <= last_j <= n - 1 - i && p[last_j] > n - 1 - i,
        decreases n - 1 - i,
    {
        let k = n - i - 1;
        let j = draws[i];
        let ghost before = list@;
        let ghost q = p;
        slice_swap(list, k, j);
        proof {
            lemma_swap_multiset(before, k as int, j as int);
            p = q.update(k as int, q[j as int]).update(j as int, q[k as int]);
            last_j = j as int;
            assert(p[k as int] == q[j as int]);
            assert(p[j as int] == q[k as int]);
            assert forall|x: int| 0 <= x < p.len() implies 0 <= #[trigger] p[x] < p.len()
                && list@[x] == old(list)@[p[x]] by {
                if x != k && x != j {
                    assert(p[x] == q[x]);
                }
            }
            assert forall|x: int, y: int|
                0 <= x < p.len() && 0 <= y < p.len() && x != y implies #[trigger] p[x]
                != #[trigger] p[y] by {
                let qx = if x == k { q[j as int] } else if x == j { q[k as int] } else { q[x] };
                let qy = if y == k { q[j as int] } else if y == j { q[k as int] } else { q[y] };
                assert(p[x] == qx);
                assert(p[y] == qy);
                let ox = if x == k { j as int } else if x == j { k as int } else { x };
                let oy = if y == k { j as int } else if y == j { k as int } else { y };
                assert(q[ox] != q[oy]);
            }
            assert forall|x: int| n - 1 - (i + 1) < x < n implies #[trigger] p[x] != x by {
                if x == k {
                    assert(q[j as int] == j || q[j as int] > k);
                } else {
                    assert(p[x] == q[x]);
                }
            }
            assert forall|x: int| 0 <= x <= n - 1 - (i + 1) implies #[trigger] p[x] == x || p[x] > n
                - 1 - (i + 1) by {
                if x == j {
                    assert(q[k as int] == k || q[k as int] > k);
                } else {
                    assert(p[x] == q[x]);
                    assert(q[x] == x || q[x] > k);
                }
            }
        }
        i = i + 1;
        assert(list@ =~= after_swaps(old(list)@, draws@, i as int));
    }
    proof {
        if n >= 2 {
            assert forall|x: int| 0 <= x < p.len() implies #[trigger] p[x] != x by {
                if x == 0 {
                    assert(last_j == 0);
                }
            }
        }
        assert(permuted_by(old(list)@, list@, p));
    }
}

/// Shuffles a list, the Knuth way: for each place from the last down to
/// the second, draws at random a place before it, then shuffles with those
/// draws.
pub fn knuth_shuffle<T>(list: &mut [T])
    requires
        old(list)@.len() >= 1,
    ensures
        exists|draws: Seq<usize>|
            valid_draws(draws, old(list)@.len() as int) && final(list)@ == #[trigger] after_swaps(
                old(list)@,
                draws,
                old(list)@.len() - 1,
            ),
        final(list)@.len() == old(list)@.len(),
        final(list)@.to_multiset() == old(list)@.to_multiset(),
        shuffled(old(list)@, final(list)@),
{
    let n = list.len();
    let mut draws: Vec<usize> = Vec::new();
    let mut i: usize = 0;
    while i < n - 1
        invariant
            n >= 1,
            i <= n - 1,
            draws@.len() == i,
            forall|t: int| 0 <= t < i ==> #[trigger] draws@[t] < n - 1 - t,
        decreases n - 1 - i,
    {
        let j = random_below(n - 1 - i);
        draws.push(j);
        i = i + 1;
    }
    shuffle_with(list, draws.as_slice());
}

/// Whether `after` is `before` shuffled with some valid draws.
pub open spec fn tier_shuffled<T>(before: Seq<T>, after: Seq<T>) -> bool {
    exists|draws: Seq<usize>|
        valid_draws(draws, before.len() as int) && after == #[trigger] after_swaps(
            before,
            draws,
            before.len() - 1,
        )
}

/// Whether every tier has a tracker.
pub open spec fn tiers_nonempty(list: Seq<Vec<String>>) -> bool {
    forall|i: int| 0 <= i < list.len() ==> (#[trigger] list[i])@.len() >= 1
}

/// Shuffles the trackers of each tier as `knuth_shuffle` does; the tiers
/// keep their order and their trackers.
pub fn shuffle_announce_list(announce_list: &mut Vec<Vec<String>>)
    requires
        tiers_nonempty(old(announce_list)@),
    ensures
        final(announce_list)@.len() == old(announce_list)@.len(),
        forall|i: int|
            0 <= i < final(announce_list)@.len() ==> (#[trigger] final(announce_list)@[i])@.to_multiset()
                == old(announce_list)@[i]@.to_multiset(),
        forall|i: int|
            0 <= i < final(announce_list)@.len() ==> shuffled(
                old(announce_list)@[i]@,
                (#[trigger] final(announce_list)@[i])@,
            ),
        forall|i: int|
            0 <= i < final(announce_list)@.len() ==> tier_shuffled(
                old(announce_list)@[i]@,
                (#[trigger] final(announce_list)@[i])@,
            ),
{
    let mut i: usize = 0;
    let ghost orig = announce_list@;
    while i < announce_list.len()
        invariant
            announce_list@.len() == orig.len(),
            orig == old(announce_list)@,
            tiers_nonempty(orig),
            i <= announce_list@.len(),
            forall|k: int|
                0 <= k < announce_list@.len() ==> (#[trigger] announce_list@[k])@.to_multiset()
                    == orig[k]@.to_multiset(),
            forall|k: int|
                0 <= k < i ==> shuffled(orig[k]@, (#[trigger] announce_list@[k])@),
            forall|k: int|
                0 <= k < i ==> tier_shuffled(orig[k]@, (#[trigger] announce_list@[k])@),
            forall|k: int| i <= k < announce_list@.len() ==> #[trigger] announce_list@[k] == orig[k],
        decreases orig.len() - i,
    {
        let mut tier: Vec<String> = Vec::new();
        std::mem::swap(&mut tier, &mut announce_list[i]);
        assert(tier@ == orig[i as int]@);
        knuth_shuffle(tier.as_mut_slice());
        announce_list.set(i, tier);
        i = i + 1;
    }
}

/// How a tracker is asked again: a tracker of the announce list stops at
/// its first failure and asks again after five hours; the single announce
/// URL is asked again after thirty seconds, and after five on a failure.
#[derive(Debug, Clone, Copy, PartialEq, Eq)]
pub enum AnnounceMode {
    Listed,
    Single,
}

/// What to do after asking a tracker.
#[derive(Debug, Clone, Copy, PartialEq, Eq)]
pub enum AnnounceAction {
    /// Hand the peers of the answer to the manager, then wait this many
    /// seconds and ask again.
    ReportThenWait(u64),
    /// Wait this many seconds and ask again.
    Wait(u64),
    /// Ask this tracker no more.
    Stop,
}

/// What to do after asking a tracker, by whether it answered.
pub open spec fn spec_announce_step(mode: AnnounceMode, answered: bool) -> AnnounceAction {
    match mode {
        AnnounceMode::Listed => if answered {
            AnnounceAction::ReportThenWait(18000)
        } else {
            AnnounceAction::Stop
        },
        AnnounceMode::Single => if answered {
            AnnounceAction::ReportThenWait(30)
        } else {
            AnnounceAction::Wait(5)
        },
    }
}

/// Decides what to do after asking a tracker.
pub fn announce_step(mode: AnnounceMode, answered: bool) -> (r: AnnounceAction)
    ensures
        r == spec_announce_step(mode, answered),
{
    match mode {
        AnnounceMode::Listed => if answered {
            AnnounceAction::ReportThenWait(18000)
        } else {
            AnnounceAction::Stop
        },
        AnnounceMode::Single => if answered {
            AnnounceAction::ReportThenWait(30)
        } else {
            AnnounceAction::Wait(5)
        },
    }
}

/// What became of asking a tracker.
#[derive(Debug)]
pub enum TrackerStatus {
    /// The tracker gave this many peers.
    FoundPeers(usize),
    /// The tracker's host could not be resolved.
    HostUnresolved,
    /// Asking failed, for this reason.
    ErrorOccurred(String),
}

/// Whether some tracker is of use: it found at least two peers.
pub fn is_one_active(statuses: &[TrackerStatus]) -> (r: bool)
    ensures
        r == exists|i: int|
            0 <= i < statuses@.len() && (#[trigger] statuses@[i] matches TrackerStatus::FoundPeers(n)
                && n > 1),
{
    let mut i: usize = 0;
    while i < statuses.len()
        invariant
            i <= statuses@.len(),
            forall|k: int|
                0 <= k < i ==> !(#[trigger] statuses@[k] matches TrackerStatus::FoundPeers(n) && n > 1),
        decreases statuses@.len() - i,
    {
        if let TrackerStatus::FoundPeers(n) = &statuses[i] {
            if *n > 1 {
                return true;
            }
        }
        i = i + 1;
    }
    false
}

} // verus!
