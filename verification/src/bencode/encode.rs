use crate::bencode::decode::str_bytes;
use crate::bencode::grammar::{
    byte_string_text, decimal, encode_entries, encode_items, encode_value, int_text, str_lt, BValue, COLON,
    DICT_START, END, INT_START, LIST_START, MINUS, ZERO,
};
use crate::bencode::value::{dict_model, lemma_dict_model, lemma_list_model, list_model, Value};
use crate::bencode::Integer;
use vstd::prelude::*;
use vstd::utf8::encode_utf8;

verus! {

/// Encodes values into a stream of bytes.
#[derive(Clone)]
pub struct Encoder {
    data: Vec<u8>,
}

/// Represents an error in an encoding operation.
/// There are no encoding errors, but this exists in case we ever have any.
#[derive(Copy, Clone, Debug, PartialEq, Eq)]
pub struct EncodeError;

/// A type that can be written as bencoded data.
pub trait EncodeTo {
    /// The bytes that encoding this value writes.
    spec fn spec_encode(&self) -> Seq<u8>;

    fn encode(&self, encoder: &mut Encoder) -> (r: Result<(), EncodeError>)
        ensures
            final(encoder)@ == old(encoder)@ + self.spec_encode(),
            r is Ok,
    ;
}

/// The encodings of a sequence of values, one after the other.
pub open spec fn encode_all<T: EncodeTo>(l: Seq<T>) -> Seq<u8>
    decreases l.len(),
{
    if l.len() == 0 {
        seq![]
    } else {
        encode_all(l.drop_last()) + l.last().spec_encode()
    }
}

/// The keys of the entries increase strictly: each key comes once, in the
/// order of its UTF-8 bytes.
pub open spec fn keys_increasing<V>(d: Seq<(String, V)>) -> bool {
    forall|i: int, j: int| 0 <= i < j < d.len() ==> str_lt(#[trigger] d[i].0@, #[trigger] d[j].0@)
}

/// The encodings of dictionary entries, one after the other.
pub open spec fn encode_all_entries<V: EncodeTo>(d: Seq<(String, V)>) -> Seq<u8>
    decreases d.len(),
{
    if d.len() == 0 {
        seq![]
    } else {
        encode_all_entries(d.drop_last()) + byte_string_text(encode_utf8(d.last().0@))
            + d.last().1.spec_encode()
    }
}

impl View for Encoder {
    type V = Seq<u8>;

    closed spec fn view(&self) -> Seq<u8> {
        self.data@
    }
}

/// Writes the decimal digits of `n`.
pub(crate) fn push_decimal(out: &mut Vec<u8>, n: u128)
    ensures
        final(out)@ == old(out)@ + decimal(n as nat),
    decreases n,
{
    if n >= 10 {
        push_decimal(out, n / 10);
    }
    let ghost before = out@;
    out.push(ZERO + (n % 10) as u8);
    proof {
        if n >= 10 {
            assert(out@ =~= old(out)@ + decimal(n as nat));
        } else {
            assert(out@ =~= old(out)@ + decimal(n as nat));
        }
    }
}

impl Encoder {
    pub fn new() -> (e: Encoder)
        ensures
            e@ == Seq::<u8>::empty(),
    {
        Encoder { data: Vec::new() }
    }

    pub fn into_bytes(self) -> (r: Vec<u8>)
        ensures
            r@ == self@,
    {
        self.data
    }

    /// Writes a single byte to the stream.
    pub fn write_byte(&mut self, b: u8) -> (r: Result<(), EncodeError>)
        ensures
            final(self)@ == old(self)@.push(b),
            r is Ok,
    {
        self.data.push(b);
        Ok(())
    }

    /// Writes a series of bytes to the stream.
    pub fn write(&mut self, b: &[u8]) -> (r: Result<(), EncodeError>)
        ensures
            final(self)@ == old(self)@ + b@,
            r is Ok,
    {
        let mut i: usize = 0;
        let ghost start = self.data@;
        while i < b.len()
            invariant
                i <= b@.len(),
                self.data@ == start + b@.subrange(0, i as int),
            decreases b@.len() - i,
        {
            self.data.push(b[i]);
            i = i + 1;
            assert(self.data@ =~= start + b@.subrange(0, i as int));
        }
        assert(b@.subrange(0, i as int) =~= b@);
        Ok(())
    }

    /// Writes an integer value to the stream.
    pub fn write_integer<T: Integer>(&mut self, t: T) -> (r: Result<(), EncodeError>)
        ensures
            final(self)@ == old(self)@ + (seq![INT_START] + int_text(t.int_value()) + seq![END]),
            r is Ok,
    {
        self.write_byte(INT_START)?;
        self.write_number(t)?;
        let r = self.write_byte(END);
        assert(self@ =~= old(self)@ + (seq![INT_START] + int_text(t.int_value()) + seq![END]));
        r
    }

    /// Writes a number to the stream.
    /// This does not include `i` prefix and `e` suffix.
    pub fn write_number<T: Integer>(&mut self, t: T) -> (r: Result<(), EncodeError>)
        ensures
            final(self)@ == old(self)@ + int_text(t.int_value()),
            r is Ok,
    {
        proof {
            T::lemma_range(t);
            T::lemma_bounds();
        }
        let v = t.to_wide();
        if v < 0 {
            self.data.push(MINUS);
            let m = (-v) as u128;
            push_decimal(&mut self.data, m);
            assert(self@ =~= old(self)@ + int_text(t.int_value()));
        } else {
            push_decimal(&mut self.data, v as u128);
        }
        Ok(())
    }

    /// Writes a byte string to the stream.
    pub fn write_bytes(&mut self, b: &[u8]) -> (r: Result<(), EncodeError>)
        ensures
            final(self)@ == old(self)@ + byte_string_text(b@),
            r is Ok,
    {
        self.write_number(b.len())?;
        self.write_byte(COLON)?;
        let r = self.write(b);
        assert(self@ =~= old(self)@ + byte_string_text(b@));
        r
    }

    /// Writes a UTF-8 encoded string to the stream.
    pub fn write_str(&mut self, s: &str) -> (r: Result<(), EncodeError>)
        ensures
            final(self)@ == old(self)@ + byte_string_text(encode_utf8(s@)),
            r is Ok,
    {
        self.write_bytes(str_bytes(s))
    }

    /// Writes a key value mapping to the stream; its keys come in increasing
    /// order, each once, as in a sorted map.
    pub fn write_dict<V: EncodeTo>(&mut self, map: &Vec<(String, V)>) -> (r: Result<(), EncodeError>)
        requires
            keys_increasing(map@),
        ensures
            final(self)@ == old(self)@ + (seq![DICT_START] + encode_all_entries(map@) + seq![END]),
            r is Ok,
    {
        self.write_byte(DICT_START)?;
        let ghost start = self@;
        let mut i: usize = 0;
        while i < map.len()
            invariant
                i <= map@.len(),
                self@ == start + encode_all_entries(map@.subrange(0, i as int)),
                start == old(self)@.push(DICT_START),
            decreases map@.len() - i,
        {
            self.write_str(map[i].0.as_str())?;
            map[i].1.encode(self)?;
            assert(map@.subrange(0, i + 1).drop_last() =~= map@.subrange(0, i as int));
            i = i + 1;
            assert(self@ =~= start + encode_all_entries(map@.subrange(0, i as int)));
        }
        assert(map@.subrange(0, i as int) =~= map@);
        let r = self.write_byte(END);
        assert(self@ =~= old(self)@ + (seq![DICT_START] + encode_all_entries(map@) + seq![END]));
        r
    }

    /// Writes a list to the stream.
    pub fn write_list<T: EncodeTo>(&mut self, t: &[T]) -> (r: Result<(), EncodeError>)
        ensures
            final(self)@ == old(self)@ + (seq![LIST_START] + encode_all(t@) + seq![END]),
            r is Ok,
    {
        self.write_byte(LIST_START)?;
        let ghost start = self@;
        let mut i: usize = 0;
        while i < t.len()
            invariant
                i <= t@.len(),
                self@ == start + encode_all(t@.subrange(0, i as int)),
                start == old(self)@.push(LIST_START),
            decreases t@.len() - i,
        {
            t[i].encode(self)?;
            assert(t@.subrange(0, i + 1).drop_last() =~= t@.subrange(0, i as int));
            i = i + 1;
            assert(self@ =~= start + encode_all(t@.subrange(0, i as int)));
        }
        assert(t@.subrange(0, i as int) =~= t@);
        let r = self.write_byte(END);
        assert(self@ =~= old(self)@ + (seq![LIST_START] + encode_all(t@) + seq![END]));
        r
    }
}

proof fn lemma_encode_items_split(l: Seq<BValue>, i: int)
    requires
        0 <= i < l.len(),
    ensures
        encode_items(l.subrange(0, i + 1)) == encode_items(l.subrange(0, i)) + encode_value(l[i]),
    decreases i,
{
    let a = l.subrange(0, i + 1);
    assert(a.drop_first() =~= l.drop_first().subrange(0, i));
    if i == 0 {
        assert(l.subrange(0, 0) =~= Seq::<BValue>::empty());
        assert(a.drop_first() =~= Seq::<BValue>::empty());
    } else {
        lemma_encode_items_split(l.drop_first(), i - 1);
        assert(l.subrange(0, i).drop_first() =~= l.drop_first().subrange(0, i - 1));
        assert(l.drop_first()[i - 1] == l[i]);
    }
}

proof fn lemma_encode_entries_split(d: Seq<(Seq<char>, BValue)>, i: int)
    requires
        0 <= i < d.len(),
    ensures
        encode_entries(d.subrange(0, i + 1)) == encode_entries(d.subrange(0, i)) + byte_string_text(
            encode_utf8(d[i].0),
        ) + encode_value(d[i].1),
    decreases i,
{
    let a = d.subrange(0, i + 1);
    assert(a.drop_first() =~= d.drop_first().subrange(0, i));
    if i == 0 {
        assert(d.subrange(0, 0) =~= Seq::<(Seq<char>, BValue)>::empty());
        assert(a.drop_first() =~= Seq::<(Seq<char>, BValue)>::empty());
    } else {
        lemma_encode_entries_split(d.drop_first(), i - 1);
        assert(d.subrange(0, i).drop_first() =~= d.drop_first().subrange(0, i - 1));
        assert(d.drop_first()[i - 1] == d[i]);
    }
}

impl Value {
    /// Writes this value.
    fn encode_into(&self, encoder: &mut Encoder)
        ensures
            final(encoder)@ == old(encoder)@ + encode_value(self@),
        decreases self,
    {
        match self {
            Value::Integer(i) => {
                let _ = encoder.write_integer(*i);
            },
            Value::Bytes(bytes) => {
                let _ = encoder.write_bytes(bytes.as_slice());
            },
            Value::String(s) => {
                let _ = encoder.write_str(s.as_str());
            },
            Value::List(list) => {
                let _ = encoder.write_byte(LIST_START);
                let ghost start = encoder@;
                let mut i: usize = 0;
                proof {
                    lemma_list_model(list@);
                }
                assert(list_model(list@).subrange(0, 0) =~= Seq::<BValue>::empty());
                assert forall|j: int| 0 <= j < list@.len() implies decreases_to!(*self => #[trigger] list@[j]) by {
                    assert(decreases_to!(*self => *list));
                    assert(decreases_to!(*list => list@));
                    assert(decreases_to!(list@ => list@[j]));
                }
                while i < list.len()
                    invariant
                        forall|j: int| 0 <= j < list@.len() ==> decreases_to!(*self => #[trigger] list@[j]),
                        i <= list@.len(),
                        list_model(list@).len() == list@.len(),
                        forall|j: int| 0 <= j < list@.len() ==> #[trigger] list_model(list@)[j] == list@[j]@,
                        encoder@ == start + encode_items(list_model(list@).subrange(0, i as int)),
                    decreases list@.len() - i,
                {
                    list[i].encode_into(encoder);
                    proof {
                        lemma_encode_items_split(list_model(list@), i as int);
                    }
                    i = i + 1;
                    assert(encoder@ =~= start + encode_items(list_model(list@).subrange(0, i as int)));
                }
                assert(list_model(list@).subrange(0, i as int) =~= list_model(list@));
                let _ = encoder.write_byte(END);
                assert(encoder@ =~= old(encoder)@ + encode_value(self@));
            },
            Value::Dict(map) => {
                let _ = encoder.write_byte(DICT_START);
                let ghost start = encoder@;
                let mut i: usize = 0;
                proof {
                    lemma_dict_model(map@);
                }
                assert(dict_model(map@).subrange(0, 0) =~= Seq::<(Seq<char>, BValue)>::empty());
                assert forall|j: int| 0 <= j < map@.len() implies decreases_to!(*self => #[trigger] map@[j].1) by {
                    assert(decreases_to!(*self => *map));
                    assert(decreases_to!(*map => map@));
                    assert(decreases_to!(map@ => map@[j]));
                    assert(decreases_to!(map@[j] => map@[j].1));
                }
                while i < map.len()
                    invariant
                        forall|j: int| 0 <= j < map@.len() ==> decreases_to!(*self => #[trigger] map@[j].1),
                        i <= map@.len(),
                        dict_model(map@).len() == map@.len(),
                        forall|j: int|
                            0 <= j < map@.len() ==> #[trigger] dict_model(map@)[j] == (
                                map@[j].0@,
                                map@[j].1@,
                            ),
                        encoder@ == start + encode_entries(dict_model(map@).subrange(0, i as int)),
                    decreases map@.len() - i,
                {
                    let _ = encoder.write_str(map[i].0.as_str());
                    map[i].1.encode_into(encoder);
                    proof {
                        lemma_encode_entries_split(dict_model(map@), i as int);
                    }
                    i = i + 1;
                    assert(encoder@ =~= start + encode_entries(
                        dict_model(map@).subrange(0, i as int),
                    ));
                }
                assert(dict_model(map@).subrange(0, i as int) =~= dict_model(map@));
                let _ = encoder.write_byte(END);
                assert(encoder@ =~= old(encoder)@ + encode_value(self@));
            },
        }
    }
}

impl EncodeTo for Value {
    open spec fn spec_encode(&self) -> Seq<u8> {
        encode_value(self@)
    }

    fn encode(&self, encoder: &mut Encoder) -> (r: Result<(), EncodeError>) {
        self.encode_into(encoder);
        Ok(())
    }
}

/// The bytes of several writes, one after the other.
pub open spec fn written(chunks: Seq<Seq<u8>>) -> Seq<u8>
    decreases chunks.len(),
{
    if chunks.len() == 0 {
        seq![]
    } else {
        written(chunks.drop_last()) + chunks.last()
    }
}

/// An encoder that starts empty (`Encoder::new`) and is then written, call
/// after call, holds what the calls wrote, one after the other, and so
/// `into_bytes` gives that: every write appends its bytes and leaves what
/// came before as it was.  `states[k]` is the encoder after `k` writes,
/// and write `k` appended `chunks[k]`, as the contract of each write says.
pub proof fn lemma_writes_concatenate(states: Seq<Encoder>, chunks: Seq<Seq<u8>>)
    requires
        states.len() == chunks.len() + 1,
        states[0]@ == Seq::<u8>::empty(),
        forall|k: int| 0 <= k < chunks.len() ==> #[trigger] states[k + 1]@ == states[k]@ + chunks[k],
    ensures
        forall|k: int| 0 <= k < states.len() ==> #[trigger] states[k]@ == written(chunks.take(k)),
        states.last()@ == written(chunks),
    decreases chunks.len(),
{
    if chunks.len() == 0 {
        assert(chunks.take(0) =~= Seq::<Seq<u8>>::empty());
    } else {
        let n = chunks.len() - 1;
        lemma_writes_concatenate(states.drop_last(), chunks.drop_last());
        assert forall|k: int| 0 <= k < states.len() implies #[trigger] states[k]@ == written(
            chunks.take(k),
        ) by {
            if k < states.len() - 1 {
                assert(states.drop_last()[k] == states[k]);
                assert(chunks.drop_last().take(k) =~= chunks.take(k));
            } else {
                assert(states.drop_last()[n] == states[n]);
                assert(chunks.drop_last().take(n) =~= chunks.take(n));
                assert(chunks.take(k).drop_last() =~= chunks.take(n));
                assert(chunks.take(k).last() == chunks[n]);
            }
        }
        assert(chunks.take(chunks.len() as int) =~= chunks);
    }
}

} // verus!
