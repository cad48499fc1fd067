use crate::bencode::decode::{
    decoded, dict_insert_entry, str_equal, str_less, string_from_utf8, DecodeError, DecodeTo, Decoder,
};
use crate::bencode::grammar::{
    dict_insert, dict_lookup, parse_dict_entries, parse_list_items, parse_value, BValue,
    DecodeFailure, DICT_START, END, INT_START, LIST_START, NINE, ZERO,
};
use crate::bencode::hash::{sha1_bytes, sha1_chunks, Sha1};
use vstd::prelude::*;
use vstd::utf8::{decode_utf8, valid_utf8};

verus! {

/// A bencoded value.  A decoded dictionary has its keys in increasing
/// order, each once (`wf_value` states it); a dictionary built by hand is
/// encoded in the order it has.
#[derive(Debug, PartialEq, Eq)]
pub enum Value {
    /// Integer value
    Integer(i64),
    /// Byte string value
    Bytes(Vec<u8>),
    /// UTF-8 string value
    String(String),
    /// List value
    List(Vec<Value>),
    /// Dictionary value
    Dict(Vec<(String, Value)>),
}

/// The model of a value.
pub open spec fn value_model(v: Value) -> BValue
    decreases v,
{
    match v {
        Value::Integer(i) => BValue::Int(i as int),
        Value::Bytes(b) => BValue::Bytes(b@),
        Value::String(s) => BValue::Str(s@),
        Value::List(l) => BValue::List(list_model(l@)),
        Value::Dict(d) => BValue::Dict(dict_model(d@)),
    }
}

/// The models of the items of a list.
pub open spec fn list_model(l: Seq<Value>) -> Seq<BValue>
    decreases l,
{
    if l.len() == 0 {
        seq![]
    } else {
        seq![value_model(l[0])] + list_model(l.drop_first())
    }
}

/// The models of the entries of a dictionary.
pub open spec fn dict_model(d: Seq<(String, Value)>) -> Seq<(Seq<char>, BValue)>
    decreases d,
{
    if d.len() == 0 {
        seq![]
    } else {
        seq![(d[0].0@, value_model(d[0].1))] + dict_model(d.drop_first())
    }
}

pub proof fn lemma_list_model(l: Seq<Value>)
    ensures
        list_model(l).len() == l.len(),
        forall|i: int| 0 <= i < l.len() ==> #[trigger] list_model(l)[i] == value_model(l[i]),
    decreases l.len(),
{
    if l.len() > 0 {
        lemma_list_model(l.drop_first());
        assert forall|i: int| 0 <= i < l.len() implies #[trigger] list_model(l)[i] == value_model(
            l[i],
        ) by {
            if i > 0 {
                assert(l.drop_first()[i - 1] == l[i]);
            }
        }
    }
}

pub proof fn lemma_dict_model(d: Seq<(String, Value)>)
    ensures
        dict_model(d).len() == d.len(),
        forall|i: int|
            0 <= i < d.len() ==> #[trigger] dict_model(d)[i] == (d[i].0@, value_model(d[i].1)),
    decreases d.len(),
{
    if d.len() > 0 {
        lemma_dict_model(d.drop_first());
        assert forall|i: int| 0 <= i < d.len() implies #[trigger] dict_model(d)[i] == (
            d[i].0@,
            value_model(d[i].1),
        ) by {
            if i > 0 {
                assert(d.drop_first()[i - 1] == d[i]);
            }
        }
    }
}

impl View for Value {
    type V = BValue;

    open spec fn view(&self) -> BValue {
        value_model(*self)
    }
}

impl DeepView for Value {
    type V = BValue;

    open spec fn deep_view(&self) -> BValue {
        value_model(*self)
    }
}

/// The deep view of a list of values is the model of its items.
pub proof fn lemma_list_deep_view(l: Vec<Value>)
    ensures
        l.deep_view() == list_model(l@),
{
    lemma_list_model(l@);
    assert(l.deep_view() =~= list_model(l@));
}

/// The deep view of dictionary entries is the model of the entries.
pub proof fn lemma_dict_deep_view(d: Vec<(String, Value)>)
    ensures
        d.deep_view() == dict_model(d@),
{
    lemma_dict_model(d@);
    assert(d.deep_view() =~= dict_model(d@));
}

/// A read of list items after `acc`.
pub open spec fn list_after(acc: Seq<BValue>, r: Result<(Seq<BValue>, int), (DecodeFailure, int)>) -> Result<
    (BValue, int),
    (DecodeFailure, int),
> {
    match r {
        Ok((l, q)) => Ok((BValue::List(acc + l), q)),
        Err(e) => Err(e),
    }
}

/// A read of dictionary entries.
pub open spec fn as_dict(r: Result<(Seq<(Seq<char>, BValue)>, int), (DecodeFailure, int)>) -> Result<
    (BValue, int),
    (DecodeFailure, int),
> {
    match r {
        Ok((d, q)) => Ok((BValue::Dict(d), q)),
        Err(e) => Err(e),
    }
}

impl Value {
    /// Reads any value; `room` bounds the bytes left, and so the depth.
    fn decode_within(d: &mut Decoder<'_>, Ghost(room): Ghost<nat>) -> (r: Result<Value, DecodeError>)
        requires
            room == old(d).input().len() - old(d).at(),
        ensures
            final(d).input() == old(d).input(),
            old(d).at() <= final(d).at() <= final(d).input().len(),
            decoded(r, final(d).at(), parse_value(old(d).input(), old(d).at())),
            r is Ok ==> final(d).at() > old(d).at(),
        decreases room,
    {
        let ghost s = d.input();
        let ghost p = d.at();
        proof {
            d.lemma_at_nonneg();
        }
        let first = d.peek_byte()?;
        if first == DICT_START {
            d.read_byte()?;
            let mut map: Vec<(String, Value)> = Vec::new();
            let mut failure: Option<DecodeError> = None;
            assert(map.deep_view() =~= Seq::<(Seq<char>, BValue)>::empty());
            loop
                invariant_except_break
                    failure is None,
                    parse_value(s, p) == as_dict(parse_dict_entries(s, d.at(), map.deep_view())),
                invariant
                    d.input() == s,
                    0 <= p < d.at() <= s.len(),
                    room == s.len() - p,
                ensures
                    d.input() == s,
                    p < d.at() <= s.len(),
                    match failure {
                        Some(e) => parse_value(s, p) == Err::<(BValue, int), (DecodeFailure, int)>(
                            (e@, d.at()),
                        ),
                        None => d.at() < s.len() && s[d.at()] == END && parse_value(s, p)
                            == as_dict(parse_dict_entries(s, d.at(), map.deep_view())),
                    },
                decreases s.len() - d.at(),
            {
                match d.peek_byte() {
                    Err(e) => {
                        failure = Some(e);
                        break ;
                    },
                    Ok(b) => {
                        if b == END {
                            break ;
                        }
                    },
                }
                let key = match d.read_str() {
                    Err(e) => {
                        failure = Some(e);
                        break ;
                    },
                    Ok(k) => k,
                };
                if map.len() > 0 && !str_less(map[map.len() - 1].0.as_str(), key.as_str()) {
                    assert(map.deep_view().last().0 == map@[map@.len() - 1].0@);
                    failure = Some(DecodeError::InvalidDict);
                    break ;
                }
                proof {
                    if map@.len() > 0 {
                        assert(map.deep_view().last().0 == map@[map@.len() - 1].0@);
                    }
                }
                let ghost room1 = (s.len() - d.at()) as nat;
                let value = match Value::decode_within(d, Ghost(room1)) {
                    Err(e) => {
                        failure = Some(e);
                        break ;
                    },
                    Ok(v) => v,
                };
                let ghost before = map.deep_view();
                map.push((key, value));
                assert(map.deep_view() =~= before.push((map@.last().0@, map@.last().1.deep_view())));
            }
            match failure {
                Some(e) => Err(e),
                None => {
                    d.expect(END)?;
                    proof {
                        lemma_dict_deep_view(map);
                    }
                    Ok(Value::Dict(map))
                },
            }
        } else if first == LIST_START {
            d.read_byte()?;
            let mut list: Vec<Value> = Vec::new();
            let mut failure: Option<DecodeError> = None;
            assert(list.deep_view() =~= Seq::<BValue>::empty());
            assert(list_after(list.deep_view(), parse_list_items(s, d.at())) == list_after(
                seq![],
                parse_list_items(s, d.at()),
            ));
            proof {
                match parse_list_items(s, d.at()) {
                    Ok((l, q)) => {
                        assert(Seq::<BValue>::empty() + l =~= l);
                    },
                    Err(_) => {},
                }
            }
            loop
                invariant_except_break
                    failure is None,
                    parse_value(s, p) == list_after(list.deep_view(), parse_list_items(s, d.at())),
                invariant
                    d.input() == s,
                    0 <= p < d.at() <= s.len(),
                    room == s.len() - p,
                ensures
                    d.input() == s,
                    p < d.at() <= s.len(),
                    match failure {
                        Some(e) => parse_value(s, p) == Err::<(BValue, int), (DecodeFailure, int)>(
                            (e@, d.at()),
                        ),
                        None => d.at() < s.len() && s[d.at()] == END && parse_value(s, p)
                            == list_after(list.deep_view(), parse_list_items(s, d.at())),
                    },
                decreases s.len() - d.at(),
            {
                match d.peek_byte() {
                    Err(e) => {
                        failure = Some(e);
                        break ;
                    },
                    Ok(b) => {
                        if b == END {
                            break ;
                        }
                    },
                }
                let ghost before = list.deep_view();
                let ghost room1 = (s.len() - d.at()) as nat;
                match Value::decode_within(d, Ghost(room1)) {
                    Err(e) => {
                        failure = Some(e);
                        break ;
                    },
                    Ok(v) => {
                        let ghost vv = v.deep_view();
                        list.push(v);
                        assert(list.deep_view() =~= before.push(vv));
                        proof {
                            match parse_list_items(s, d.at()) {
                                Ok((l, q)) => {
                                    assert(before + (seq![vv] + l) =~= before.push(vv) + l);
                                },
                                Err(_) => {},
                            }
                        }
                    },
                }
            }
            match failure {
                Some(e) => Err(e),
                None => {
                    d.expect(END)?;
                    proof {
                        lemma_list_deep_view(list);
                    }
                    assert(list.deep_view() + Seq::<BValue>::empty() =~= list.deep_view());
                    Ok(Value::List(list))
                },
            }
        } else if first == INT_START {
            let i: i64 = d.read_integer()?;
            Ok(Value::Integer(i))
        } else if ZERO <= first && first <= NINE {
            let bytes = d.read_byte_string()?;
            assert(bytes.deep_view() =~= bytes@);
            match string_from_utf8(bytes) {
                Ok(s) => Ok(Value::String(s)),
                Err(b) => Ok(Value::Bytes(b)),
            }
        } else {
            Err(DecodeError::InvalidByte(first))
        }
    }
}

impl DecodeTo for Value {
    open spec fn spec_decode(s: Seq<u8>, p: int) -> Result<(BValue, int), (DecodeFailure, int)> {
        parse_value(s, p)
    }

    fn decode(d: &mut Decoder<'_>) -> (r: Result<Value, DecodeError>) {
        let left = d.remaining();
        let ghost room = left as nat;
        Value::decode_within(d, Ghost(room))
    }
}

/// What a getter finds under `key`: the dictionary's entry, a missing field,
/// or a value that is not a dictionary.
pub open spec fn lookup_value(v: BValue, key: Seq<char>) -> Result<BValue, DecodeFailure> {
    match v {
        BValue::Dict(d) => match dict_lookup(d, key) {
            Some(x) => Ok(x),
            None => Err(DecodeFailure::MissingField(key)),
        },
        _ => Err(DecodeFailure::InvalidDict),
    }
}

/// What an optional getter finds under `key`.
pub open spec fn lookup_option(v: BValue, key: Seq<char>) -> Result<Option<BValue>, DecodeFailure> {
    match v {
        BValue::Dict(d) => Ok(dict_lookup(d, key)),
        _ => Err(DecodeFailure::InvalidDict),
    }
}

/// A conversion result `r` is the one that `expected` prescribes.
pub open spec fn converted<T: DeepView>(
    r: Result<T, DecodeError>,
    expected: Result<T::V, DecodeFailure>,
) -> bool {
    match r {
        Ok(x) => expected == Ok::<T::V, DecodeFailure>(x.deep_view()),
        Err(e) => expected == Err::<T::V, DecodeFailure>(e@),
    }
}

/// Reading the field `key` of a value as a `T`.
pub open spec fn field_value<T: FromValue>(v: BValue, key: Seq<char>) -> Result<T::V, DecodeFailure> {
    match lookup_value(v, key) {
        Ok(x) => T::spec_from_value(x),
        Err(e) => Err(e),
    }
}

/// Reading the optional field `key` of a value as a `T`.
pub open spec fn option_field_value<T: FromValue>(v: BValue, key: Seq<char>) -> Result<
    Option<T::V>,
    DecodeFailure,
> {
    match lookup_option(v, key) {
        Ok(Some(x)) => match T::spec_from_value(x) {
            Ok(t) => Ok(Some(t)),
            Err(e) => Err(e),
        },
        Ok(None) => Ok(None),
        Err(e) => Err(e),
    }
}

/// Finds the entry with key `key`.
fn find_entry(map: &Vec<(String, Value)>, key: &str) -> (r: Option<usize>)
    ensures
        match r {
            Some(i) => i < map@.len() && dict_lookup(dict_model(map@), key@) == Some(
                value_model(map@[i as int].1),
            ),
            None => dict_lookup(dict_model(map@), key@) is None,
        },
{
    let ghost d = dict_model(map@);
    proof {
        lemma_dict_model(map@);
    }
    assert(d.skip(0) =~= d);
    let mut i: usize = 0;
    while i < map.len()
        invariant
            i <= map@.len(),
            d == dict_model(map@),
            d.len() == map@.len(),
            forall|j: int| 0 <= j < map@.len() ==> #[trigger] d[j] == (map@[j].0@, value_model(map@[j].1)),
            dict_lookup(d, key@) == dict_lookup(d.skip(i as int), key@),
        decreases map@.len() - i,
    {
        let ghost rest = d.skip(i as int);
        assert(rest[0] == d[i as int]);
        if str_equal(map[i].0.as_str(), key) {
            return Some(i);
        }
        assert(rest.drop_first() =~= d.skip(i + 1));
        i = i + 1;
    }
    assert(d.skip(i as int) =~= Seq::<(Seq<char>, BValue)>::empty());
    None
}

impl Value {
    /// The value of the field `key` of a dictionary.
    pub fn get_value(&self, key: &str) -> (r: Result<&Value, DecodeError>)
        ensures
            match r {
                Ok(x) => lookup_value(self@, key@) == Ok::<BValue, DecodeFailure>(x@),
                Err(e) => lookup_value(self@, key@) == Err::<BValue, DecodeFailure>(e@),
            },
    {
        match self {
            Value::Dict(map) => match find_entry(map, key) {
                Some(i) => Ok(&map[i].1),
                None => Err(DecodeError::MissingField(key.to_owned())),
            },
            _ => Err(DecodeError::InvalidDict),
        }
    }

    /// The value of the field `key` of a dictionary, if it is there.
    pub fn get_option_value(&self, key: &str) -> (r: Result<Option<&Value>, DecodeError>)
        ensures
            match r {
                Ok(Some(x)) => lookup_option(self@, key@) == Ok::<Option<BValue>, DecodeFailure>(
                    Some(x@),
                ),
                Ok(None) => lookup_option(self@, key@) == Ok::<Option<BValue>, DecodeFailure>(
                    None,
                ),
                Err(e) => lookup_option(self@, key@) == Err::<Option<BValue>, DecodeFailure>(e@),
            },
    {
        match self {
            Value::Dict(map) => match find_entry(map, key) {
                Some(i) => Ok(Some(&map[i].1)),
                None => Ok(None),
            },
            _ => Err(DecodeError::InvalidDict),
        }
    }

    /// Reads the field `key` of a dictionary as a `T`.
    pub fn get_field<T: FromValue>(&self, key: &str) -> (r: Result<T, DecodeError>)
        ensures
            converted(r, field_value::<T>(self@, key@)),
    {
        match self {
            Value::Dict(map) => match find_entry(map, key) {
                Some(i) => T::from_value(&map[i].1),
                None => Err(DecodeError::MissingField(key.to_owned())),
            },
            _ => Err(DecodeError::InvalidDict),
        }
    }

    /// Reads the field `key` of a dictionary as a `T`, if it is there.
    pub fn get_option_field<T: FromValue>(&self, key: &str) -> (r: Result<Option<T>, DecodeError>)
        ensures
            converted(r, option_field_value::<T>(self@, key@)),
    {
        match self {
            Value::Dict(map) => match find_entry(map, key) {
                Some(i) => match T::from_value(&map[i].1) {
                    Ok(t) => Ok(Some(t)),
                    Err(e) => Err(e),
                },
                None => Ok(None),
            },
            _ => Err(DecodeError::InvalidDict),
        }
    }
}

/// A type that can be read from a `Value`.
pub trait FromValue: Sized + DeepView {
    /// What reading a value of this type from `v` gives.
    spec fn spec_from_value(v: BValue) -> Result<Self::V, DecodeFailure>;

    fn from_value(value: &Value) -> (r: Result<Self, DecodeError>)
        ensures
            converted(r, Self::spec_from_value(value@)),
    ;
}

/// A type that can be turned into a `Value`.
pub trait IntoValue: Sized + DeepView {
    /// The value that a value of this type becomes.
    spec fn spec_into_value(x: Self::V) -> BValue;

    fn into_value(self) -> (r: Value)
        ensures
            r@ == Self::spec_into_value(self.deep_view()),
    ;
}

impl FromValue for String {
    open spec fn spec_from_value(v: BValue) -> Result<Seq<char>, DecodeFailure> {
        match v {
            BValue::Bytes(b) => if valid_utf8(b) {
                Ok(decode_utf8(b))
            } else {
                Err(DecodeFailure::InvalidUtf8)
            },
            BValue::Str(s) => Ok(s),
            _ => Err(DecodeFailure::ExtraneousData),
        }
    }

    fn from_value(value: &Value) -> (r: Result<String, DecodeError>) {
        match value {
            Value::Bytes(bytes) => {
                let copy = copy_bytes(bytes);
                match string_from_utf8(copy) {
                    Ok(s) => Ok(s),
                    Err(_) => Err(DecodeError::InvalidUtf8),
                }
            },
            Value::String(s) => Ok(s.clone()),
            _ => Err(DecodeError::ExtraneousData),
        }
    }
}

/// A copy of some bytes.
fn copy_bytes(b: &Vec<u8>) -> (r: Vec<u8>)
    ensures
        r@ == b@,
{
    let mut r: Vec<u8> = Vec::new();
    let mut i: usize = 0;
    while i < b.len()
        invariant
            i <= b@.len(),
            r@ == b@.take(i as int),
        decreases b@.len() - i,
    {
        r.push(b[i]);
        assert(r@ =~= b@.take(i + 1));
        i = i + 1;
    }
    assert(b@.take(b@.len() as int) =~= b@);
    r
}

impl FromValue for Vec<Sha1> {
    open spec fn spec_from_value(v: BValue) -> Result<Seq<Seq<u8>>, DecodeFailure> {
        match v {
            BValue::Bytes(b) => Ok(sha1_chunks(b)),
            _ => Err(DecodeFailure::ExtraneousData),
        }
    }

    fn from_value(value: &Value) -> (r: Result<Vec<Sha1>, DecodeError>) {
        match value {
            Value::Bytes(bytes) => Ok(Sha1::to_sha1list(bytes.as_slice())),
            _ => Err(DecodeError::ExtraneousData),
        }
    }
}

/// Reading every item of a list as a `T`; the first failure stops it.
pub open spec fn items_from_value<T: FromValue>(l: Seq<BValue>) -> Result<Seq<T::V>, DecodeFailure>
    decreases l.len(),
{
    if l.len() == 0 {
        Ok(seq![])
    } else {
        match T::spec_from_value(l[0]) {
            Err(e) => Err(e),
            Ok(x) => match items_from_value::<T>(l.drop_first()) {
                Err(e) => Err(e),
                Ok(r) => Ok(seq![x] + r),
            },
        }
    }
}

/// A conversion of list items after `acc` has been converted.
pub open spec fn items_after<V>(acc: Seq<V>, r: Result<Seq<V>, DecodeFailure>) -> Result<
    Seq<V>,
    DecodeFailure,
> {
    match r {
        Ok(l) => Ok(acc + l),
        Err(e) => Err(e),
    }
}

impl<T: FromValue> FromValue for Vec<T> {
    open spec fn spec_from_value(v: BValue) -> Result<Seq<T::V>, DecodeFailure> {
        match v {
            BValue::List(l) => items_from_value::<T>(l),
            _ => Err(DecodeFailure::ExtraneousData),
        }
    }

    fn from_value(value: &Value) -> (r: Result<Vec<T>, DecodeError>) {
        match value {
            Value::List(list) => {
                let ghost l = list_model(list@);
                proof {
                    lemma_list_model(list@);
                }
                let mut res: Vec<T> = Vec::new();
                let mut i: usize = 0;
                assert(l.skip(0) =~= l);
                assert(res.deep_view() =~= Seq::<T::V>::empty());
                assert(items_after(res.deep_view(), items_from_value::<T>(l.skip(0)))
                    == items_from_value::<T>(l)) by {
                    match items_from_value::<T>(l) {
                        Ok(x) => {
                            assert(Seq::<T::V>::empty() + x =~= x);
                        },
                        Err(_) => {},
                    }
                }
                assert(value@ == BValue::List(l));
                while i < list.len()
                    invariant
                        i <= list@.len(),
                        value@ == BValue::List(l),
                        l == list_model(list@),
                        l.len() == list@.len(),
                        forall|j: int| 0 <= j < list@.len() ==> #[trigger] l[j] == value_model(list@[j]),
                        items_after(res.deep_view(), items_from_value::<T>(l.skip(i as int)))
                            == items_from_value::<T>(l),
                    decreases list@.len() - i,
                {
                    let ghost rest = l.skip(i as int);
                    assert(rest[0] == l[i as int]);
                    assert(rest.drop_first() =~= l.skip(i + 1));
                    let ghost before = res.deep_view();
                    match T::from_value(&list[i]) {
                        Ok(t) => {
                            let ghost tv = t.deep_view();
                            res.push(t);
                            assert(res.deep_view() =~= before.push(tv));
                            proof {
                                match items_from_value::<T>(l.skip(i + 1)) {
                                    Ok(x) => {
                                        assert(before + (seq![tv] + x) =~= before.push(tv) + x);
                                    },
                                    Err(_) => {},
                                }
                            }
                        },
                        Err(e) => {
                            assert(items_from_value::<T>(rest) == Err::<Seq<T::V>, DecodeFailure>(
                                e@,
                            ));
                            assert(items_from_value::<T>(l) == Err::<Seq<T::V>, DecodeFailure>(e@));
                            assert(value@ == BValue::List(l));
                            return Err(e);
                        },
                    }
                    i = i + 1;
                }
                assert(l.skip(i as int) =~= Seq::<BValue>::empty());
                assert(res.deep_view() + Seq::<T::V>::empty() =~= res.deep_view());
                Ok(res)
            },
            _ => Err(DecodeError::ExtraneousData),
        }
    }
}

impl IntoValue for String {
    open spec fn spec_into_value(x: Seq<char>) -> BValue {
        BValue::Str(x)
    }

    fn into_value(self) -> (r: Value) {
        Value::String(self)
    }
}

impl IntoValue for Vec<Sha1> {
    open spec fn spec_into_value(x: Seq<Seq<u8>>) -> BValue {
        BValue::Bytes(sha1_bytes(x))
    }

    fn into_value(self) -> (r: Value) {
        let mut bytes: Vec<u8> = Vec::new();
        let mut i: usize = 0;
        assert(self.deep_view().take(0) =~= Seq::<Seq<u8>>::empty());
        while i < self.len()
            invariant
                i <= self@.len(),
                bytes@ == sha1_bytes(self.deep_view().take(i as int)),
            decreases self@.len() - i,
        {
            let sha1 = self[i];
            let mut j: usize = 0;
            let ghost start = bytes@;
            while j < 20
                invariant
                    j <= 20,
                    bytes@ == start + sha1.0@.take(j as int),
                decreases 20 - j,
            {
                bytes.push(sha1.0[j]);
                assert(bytes@ =~= start + sha1.0@.take(j + 1));
                j = j + 1;
            }
            assert(sha1.0@.take(20) =~= sha1.0@);
            assert(self.deep_view().take(i + 1).drop_last() =~= self.deep_view().take(i as int));
            assert(self.deep_view()[i as int] == sha1.0@);
            i = i + 1;
        }
        assert(self.deep_view().take(self@.len() as int) =~= self.deep_view());
        Value::Bytes(bytes)
    }
}

/// The values that list items become.
pub open spec fn items_into_value<T: IntoValue>(l: Seq<T::V>) -> Seq<BValue> {
    l.map_values(|x: T::V| T::spec_into_value(x))
}

impl<T: IntoValue> IntoValue for Vec<T> {
    open spec fn spec_into_value(x: Seq<T::V>) -> BValue {
        BValue::List(items_into_value::<T>(x))
    }

    fn into_value(self) -> (r: Value) {
        let ghost orig = self.deep_view();
        let mut src = self;
        let mut res: Vec<Value> = Vec::new();
        assert(orig.skip(0) =~= orig);
        while src.len() > 0
            invariant
                res@.len() <= orig.len(),
                src.deep_view() == orig.skip(res@.len() as int),
                forall|j: int|
                    0 <= j < res@.len() ==> #[trigger] value_model(res@[j]) == T::spec_into_value(
                        orig[j],
                    ),
            decreases src@.len(),
        {
            let ghost k = res@.len() as int;
            let ghost before = src.deep_view();
            let ghost before_v = src@;
            assert(before.len() == before_v.len());
            assert(before[0] == before_v[0].deep_view());
            assert(before[0] == orig[k]);
            let t = src.remove(0);
            assert(t.deep_view() == orig[k]);
            assert(src.deep_view() =~= orig.skip(k + 1)) by {
                assert forall|j: int| 0 <= j < src.deep_view().len() implies src.deep_view()[j]
                    == orig.skip(k + 1)[j] by {
                    assert(src@[j] == before_v[j + 1]);
                    assert(before[j + 1] == before_v[j + 1].deep_view());
                    assert(before[j + 1] == orig[k + 1 + j]);
                }
            }
            let v = t.into_value();
            res.push(v);
        }
        proof {
            lemma_list_model(res@);
            assert(list_model(res@) =~= items_into_value::<T>(orig));
        }
        Value::List(res)
    }
}

impl FromValue for u8 {
    open spec fn spec_from_value(v: BValue) -> Result<u8, DecodeFailure> {
        match v {
            BValue::Int(i) => Ok((i as i64) as u8),
            _ => Err(DecodeFailure::ExtraneousData),
        }
    }

    fn from_value(value: &Value) -> (r: Result<u8, DecodeError>) {
        match value {
            Value::Integer(i) => Ok(*i as u8),
            _ => Err(DecodeError::ExtraneousData),
        }
    }
}

impl IntoValue for u8 {
    open spec fn spec_into_value(x: u8) -> BValue {
        BValue::Int((x as i64) as int)
    }

    fn into_value(self) -> (r: Value) {
        Value::Integer(self as i64)
    }
}

impl FromValue for u16 {
    open spec fn spec_from_value(v: BValue) -> Result<u16, DecodeFailure> {
        match v {
            BValue::Int(i) => Ok((i as i64) as u16),
            _ => Err(DecodeFailure::ExtraneousData),
        }
    }

    fn from_value(value: &Value) -> (r: Result<u16, DecodeError>) {
        match value {
            Value::Integer(i) => Ok(*i as u16),
            _ => Err(DecodeError::ExtraneousData),
        }
    }
}

impl IntoValue for u16 {
    open spec fn spec_into_value(x: u16) -> BValue {
        BValue::Int((x as i64) as int)
    }

    fn into_value(self) -> (r: Value) {
        Value::Integer(self as i64)
    }
}

impl FromValue for u32 {
    open spec fn spec_from_value(v: BValue) -> Result<u32, DecodeFailure> {
        match v {
            BValue::Int(i) => Ok((i as i64) as u32),
            _ => Err(DecodeFailure::ExtraneousData),
        }
    }

    fn from_value(value: &Value) -> (r: Result<u32, DecodeError>) {
        match value {
            Value::Integer(i) => Ok(*i as u32),
            _ => Err(DecodeError::ExtraneousData),
        }
    }
}

impl IntoValue for u32 {
    open spec fn spec_into_value(x: u32) -> BValue {
        BValue::Int((x as i64) as int)
    }

    fn into_value(self) -> (r: Value) {
        Value::Integer(self as i64)
    }
}

impl FromValue for u64 {
    open spec fn spec_from_value(v: BValue) -> Result<u64, DecodeFailure> {
        match v {
            BValue::Int(i) => Ok((i as i64) as u64),
            _ => Err(DecodeFailure::ExtraneousData),
        }
    }

    fn from_value(value: &Value) -> (r: Result<u64, DecodeError>) {
        match value {
            Value::Integer(i) => Ok(*i as u64),
            _ => Err(DecodeError::ExtraneousData),
        }
    }
}

impl IntoValue for u64 {
    open spec fn spec_into_value(x: u64) -> BValue {
        BValue::Int((x as i64) as int)
    }

    fn into_value(self) -> (r: Value) {
        Value::Integer(self as i64)
    }
}

impl FromValue for usize {
    open spec fn spec_from_value(v: BValue) -> Result<usize, DecodeFailure> {
        match v {
            BValue::Int(i) => Ok((i as i64) as usize),
            _ => Err(DecodeFailure::ExtraneousData),
        }
    }

    fn from_value(value: &Value) -> (r: Result<usize, DecodeError>) {
        match value {
            Value::Integer(i) => Ok(*i as usize),
            _ => Err(DecodeError::ExtraneousData),
        }
    }
}

impl IntoValue for usize {
    open spec fn spec_into_value(x: usize) -> BValue {
        BValue::Int((x as i64) as int)
    }

    fn into_value(self) -> (r: Value) {
        Value::Integer(self as i64)
    }
}

impl FromValue for i8 {
    open spec fn spec_from_value(v: BValue) -> Result<i8, DecodeFailure> {
        match v {
            BValue::Int(i) => Ok((i as i64) as i8),
            _ => Err(DecodeFailure::ExtraneousData),
        }
    }

    fn from_value(value: &Value) -> (r: Result<i8, DecodeError>) {
        match value {
            Value::Integer(i) => Ok(*i as i8),
            _ => Err(DecodeError::ExtraneousData),
        }
    }
}

impl IntoValue for i8 {
    open spec fn spec_into_value(x: i8) -> BValue {
        BValue::Int((x as i64) as int)
    }

    fn into_value(self) -> (r: Value) {
        Value::Integer(self as i64)
    }
}

impl FromValue for i16 {
    open spec fn spec_from_value(v: BValue) -> Result<i16, DecodeFailure> {
        match v {
            BValue::Int(i) => Ok((i as i64) as i16),
            _ => Err(DecodeFailure::ExtraneousData),
        }
    }

    fn from_value(value: &Value) -> (r: Result<i16, DecodeError>) {
        match value {
            Value::Integer(i) => Ok(*i as i16),
            _ => Err(DecodeError::ExtraneousData),
        }
    }
}

impl IntoValue for i16 {
    open spec fn spec_into_value(x: i16) -> BValue {
        BValue::Int((x as i64) as int)
    }

    fn into_value(self) -> (r: Value) {
        Value::Integer(self as i64)
    }
}

impl FromValue for i32 {
    open spec fn spec_from_value(v: BValue) -> Result<i32, DecodeFailure> {
        match v {
            BValue::Int(i) => Ok((i as i64) as i32),
            _ => Err(DecodeFailure::ExtraneousData),
        }
    }

    fn from_value(value: &Value) -> (r: Result<i32, DecodeError>) {
        match value {
            Value::Integer(i) => Ok(*i as i32),
            _ => Err(DecodeError::ExtraneousData),
        }
    }
}

impl IntoValue for i32 {
    open spec fn spec_into_value(x: i32) -> BValue {
        BValue::Int((x as i64) as int)
    }

    fn into_value(self) -> (r: Value) {
        Value::Integer(self as i64)
    }
}

impl FromValue for i64 {
    open spec fn spec_from_value(v: BValue) -> Result<i64, DecodeFailure> {
        match v {
            BValue::Int(i) => Ok((i as i64) as i64),
            _ => Err(DecodeFailure::ExtraneousData),
        }
    }

    fn from_value(value: &Value) -> (r: Result<i64, DecodeError>) {
        match value {
            Value::Integer(i) => Ok(*i as i64),
            _ => Err(DecodeError::ExtraneousData),
        }
    }
}

impl IntoValue for i64 {
    open spec fn spec_into_value(x: i64) -> BValue {
        BValue::Int((x as i64) as int)
    }

    fn into_value(self) -> (r: Value) {
        Value::Integer(self as i64)
    }
}

impl FromValue for isize {
    open spec fn spec_from_value(v: BValue) -> Result<isize, DecodeFailure> {
        match v {
            BValue::Int(i) => Ok((i as i64) as isize),
            _ => Err(DecodeFailure::ExtraneousData),
        }
    }

    fn from_value(value: &Value) -> (r: Result<isize, DecodeError>) {
        match value {
            Value::Integer(i) => Ok(*i as isize),
            _ => Err(DecodeError::ExtraneousData),
        }
    }
}

impl IntoValue for isize {
    open spec fn spec_into_value(x: isize) -> BValue {
        BValue::Int((x as i64) as int)
    }

    fn into_value(self) -> (r: Value) {
        Value::Integer(self as i64)
    }
}

} // verus!
