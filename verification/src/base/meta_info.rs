//! The metainfo of a torrent: what a `.torrent` file holds.
use crate::bencode::decode::{
    combined_field_of, decoded, dict_insert_entry, field_of, option_of, struct_of, DecodeError,
    DecodeFields, DecodeTo, Decoder,
};
use crate::bencode::encode::{EncodeTo, Encoder};
use crate::bencode::grammar::{
    dict_insert, encode_entries, encode_value, parse_value, wf_value, BValue, DecodeFailure, DICT_START,
    END,
};
use crate::bencode::hash::{sha1_digest, Sha1};
use crate::bencode::value::{
    converted, field_value, lemma_dict_deep_view, lookup_option, option_field_value, FromValue,
    IntoValue, Value,
};
use crate::bencode::grammar::dict_lookup;
use crate::bencode::roundtrip::{
    lemma_field_of_encoded_str, lemma_integer_round_trip, lemma_list_round_trip,
    lemma_lookup_insert_other,
    lemma_lookup_insert_same, lemma_sha1_list_round_trip, lemma_string_round_trip,
};
use vstd::prelude::*;

verus! {

#[verifier::external_type_specification]
#[verifier::external_body]
pub struct ExInstant(std::time::Instant);

/// The model of a file of a multi-file torrent.
pub struct FileInfoModel {
    pub length: u64,
    pub md5sum: Option<Seq<char>>,
    pub path: Seq<Seq<char>>,
}

/// The model of the `info` of a single-file torrent.
pub struct SingleInfoModel {
    pub length: u64,
    pub md5sum: Option<Seq<char>>,
    pub name: Seq<char>,
    pub piece_length: usize,
    pub pieces: Seq<Seq<u8>>,
}

/// The model of the `info` of a multi-file torrent.
pub struct MultiInfoModel {
    pub files: Seq<FileInfoModel>,
    pub name: Seq<char>,
    pub piece_length: usize,
    pub pieces: Seq<Seq<u8>>,
}

/// The model of an `info` dictionary.
pub enum InfoModel {
    Single(SingleInfoModel),
    Multi(MultiInfoModel),
}

/// The model of a torrent's metainfo.
pub struct MetaInfoModel {
    pub info: InfoModel,
    pub announce: Option<Seq<char>>,
    pub announce_list: Option<Seq<Seq<Seq<char>>>>,
    pub creation_date: Option<std::time::Instant>,
    pub comment: Option<Seq<char>>,
    pub created_by: Option<Seq<char>>,
    pub encoding: Option<Seq<char>>,
}

/// The metainfo of a torrent.
#[derive(Debug, Clone)]
pub struct TorrentMetaInfo {
    pub info: Info,
    pub announce: Option<String>,
    pub announce_list: Option<Vec<Vec<String>>>,
    pub creation_date: Option<std::time::Instant>,
    pub comment: Option<String>,
    pub created_by: Option<String>,
    pub encoding: Option<String>,
}

/// The `info` dictionary: one file, or several.
#[derive(Debug)]
pub enum Info {
    Single(SingleInfo),
    Multi(MultiInfo),
}

/// The `info` of a single-file torrent.
#[derive(Debug)]
pub struct SingleInfo {
    pub length: u64,
    pub md5sum: Option<String>,
    /// The name of the file.
    pub name: String,
    /// The number of bytes in each piece.
    pub piece_length: usize,
    /// The SHA-1 hashes of the pieces, twenty bytes each.
    pub pieces: Vec<Sha1>,
}

/// The `info` of a multi-file torrent.
#[derive(Debug)]
pub struct MultiInfo {
    pub files: Vec<FileInfo>,
    pub name: String,
    pub piece_length: usize,
    pub pieces: Vec<Sha1>,
}

/// A file of a multi-file torrent.
#[derive(Debug)]
pub struct FileInfo {
    pub length: u64,
    pub md5sum: Option<String>,
    pub path: Vec<String>,
}

impl DeepView for FileInfo {
    type V = FileInfoModel;

    open spec fn deep_view(&self) -> FileInfoModel {
        FileInfoModel {
            length: self.length,
            md5sum: self.md5sum.deep_view(),
            path: self.path.deep_view(),
        }
    }
}

impl DeepView for SingleInfo {
    type V = SingleInfoModel;

    open spec fn deep_view(&self) -> SingleInfoModel {
        SingleInfoModel {
            length: self.length,
            md5sum: self.md5sum.deep_view(),
            name: self.name@,
            piece_length: self.piece_length,
            pieces: self.pieces.deep_view(),
        }
    }
}

impl DeepView for MultiInfo {
    type V = MultiInfoModel;

    open spec fn deep_view(&self) -> MultiInfoModel {
        MultiInfoModel {
            files: self.files.deep_view(),
            name: self.name@,
            piece_length: self.piece_length,
            pieces: self.pieces.deep_view(),
        }
    }
}

impl DeepView for Info {
    type V = InfoModel;

    open spec fn deep_view(&self) -> InfoModel {
        match self {
            Info::Single(s) => InfoModel::Single(s.deep_view()),
            Info::Multi(m) => InfoModel::Multi(m.deep_view()),
        }
    }
}

impl DeepView for TorrentMetaInfo {
    type V = MetaInfoModel;

    open spec fn deep_view(&self) -> MetaInfoModel {
        MetaInfoModel {
            info: self.info.deep_view(),
            announce: self.announce.deep_view(),
            announce_list: self.announce_list.deep_view(),
            creation_date: self.creation_date,
            comment: self.comment.deep_view(),
            created_by: self.created_by.deep_view(),
            encoding: self.encoding.deep_view(),
        }
    }
}

// ----- copies -----

fn clone_option_string(o: &Option<String>) -> (r: Option<String>)
    ensures
        r.deep_view() == o.deep_view(),
{
    match o {
        Some(s) => Some(s.clone()),
        None => None,
    }
}

fn clone_strings(v: &Vec<String>) -> (r: Vec<String>)
    ensures
        r.deep_view() == v.deep_view(),
{
    let mut r: Vec<String> = Vec::new();
    let mut i: usize = 0;
    while i < v.len()
        invariant
            i <= v@.len(),
            r.deep_view() == v.deep_view().take(i as int),
        decreases v@.len() - i,
    {
        let ghost before = r.deep_view();
        r.push(v[i].clone());
        assert(r.deep_view() =~= v.deep_view().take(i + 1)) by {
            assert(r.deep_view() =~= before.push(v@[i as int]@));
        }
        i = i + 1;
    }
    assert(v.deep_view().take(v@.len() as int) =~= v.deep_view());
    r
}

fn clone_hashes(v: &Vec<Sha1>) -> (r: Vec<Sha1>)
    ensures
        r.deep_view() == v.deep_view(),
{
    let mut r: Vec<Sha1> = Vec::new();
    let mut i: usize = 0;
    while i < v.len()
        invariant
            i <= v@.len(),
            r.deep_view() == v.deep_view().take(i as int),
        decreases v@.len() - i,
    {
        let ghost before = r.deep_view();
        r.push(Sha1(v[i].0));
        assert(r.deep_view() =~= v.deep_view().take(i + 1)) by {
            assert(r.deep_view() =~= before.push(v@[i as int]@));
        }
        i = i + 1;
    }
    assert(v.deep_view().take(v@.len() as int) =~= v.deep_view());
    r
}

fn clone_files(v: &Vec<FileInfo>) -> (r: Vec<FileInfo>)
    ensures
        r.deep_view() == v.deep_view(),
{
    let mut r: Vec<FileInfo> = Vec::new();
    let mut i: usize = 0;
    while i < v.len()
        invariant
            i <= v@.len(),
            r.deep_view() == v.deep_view().take(i as int),
        decreases v@.len() - i,
    {
        let ghost before = r.deep_view();
        r.push(v[i].clone());
        assert(r.deep_view() =~= v.deep_view().take(i + 1)) by {
            assert(r.deep_view() =~= before.push(v@[i as int].deep_view()));
        }
        i = i + 1;
    }
    assert(v.deep_view().take(v@.len() as int) =~= v.deep_view());
    r
}

impl Clone for FileInfo {
    fn clone(&self) -> (r: FileInfo)
        ensures
            r.deep_view() == self.deep_view(),
    {
        FileInfo {
            length: self.length,
            md5sum: clone_option_string(&self.md5sum),
            path: clone_strings(&self.path),
        }
    }
}

impl Clone for SingleInfo {
    fn clone(&self) -> (r: SingleInfo)
        ensures
            r.deep_view() == self.deep_view(),
    {
        SingleInfo {
            length: self.length,
            md5sum: clone_option_string(&self.md5sum),
            name: self.name.clone(),
            piece_length: self.piece_length,
            pieces: clone_hashes(&self.pieces),
        }
    }
}

impl Clone for MultiInfo {
    fn clone(&self) -> (r: MultiInfo)
        ensures
            r.deep_view() == self.deep_view(),
    {
        MultiInfo {
            files: clone_files(&self.files),
            name: self.name.clone(),
            piece_length: self.piece_length,
            pieces: clone_hashes(&self.pieces),
        }
    }
}

impl Clone for Info {
    fn clone(&self) -> (r: Info)
        ensures
            r.deep_view() == self.deep_view(),
    {
        match self {
            Info::Single(s) => Info::Single(s.clone()),
            Info::Multi(m) => Info::Multi(m.clone()),
        }
    }
}

// ----- building dictionaries -----

/// A dictionary with the optional entry `k` inserted when it is there.
pub open spec fn option_entry<T: IntoValue>(
    d: Seq<(Seq<char>, BValue)>,
    k: Seq<char>,
    o: Option<T::V>,
) -> Seq<(Seq<char>, BValue)> {
    match o {
        Some(x) => dict_insert(d, k, T::spec_into_value(x)),
        None => d,
    }
}

/// Inserts `t` under the key `s`.
fn insert<T: IntoValue>(map: &mut Vec<(String, Value)>, s: &str, t: T)
    ensures
        final(map).deep_view() == dict_insert(
            old(map).deep_view(),
            s@,
            T::spec_into_value(t.deep_view()),
        ),
{
    let v = t.into_value();
    dict_insert_entry(map, s.to_owned(), v);
}

/// Inserts `t` under the key `s` when it is there.
fn insert_option<T: IntoValue>(map: &mut Vec<(String, Value)>, s: &str, t: Option<T>)
    ensures
        final(map).deep_view() == option_entry::<T>(old(map).deep_view(), s@, t.deep_view()),
{
    match t {
        Some(v) => insert(map, s, v),
        None => {},
    }
}

// ----- file entries -----

impl FromValue for FileInfo {
    open spec fn spec_from_value(v: BValue) -> Result<FileInfoModel, DecodeFailure> {
        match field_value::<u64>(v, "length"@) {
            Err(e) => Err(e),
            Ok(length) => match option_field_value::<String>(v, "md5sum"@) {
                Err(e) => Err(e),
                Ok(md5sum) => match field_value::<Vec<String>>(v, "path"@) {
                    Err(e) => Err(e),
                    Ok(path) => Ok(FileInfoModel { length, md5sum, path }),
                },
            },
        }
    }

    fn from_value(value: &Value) -> (r: Result<FileInfo, DecodeError>) {
        let length: u64 = value.get_field("length")?;
        let md5sum: Option<String> = value.get_option_field("md5sum")?;
        let path: Vec<String> = value.get_field("path")?;
        Ok(FileInfo { length, md5sum, path })
    }
}

impl IntoValue for FileInfo {
    open spec fn spec_into_value(m: FileInfoModel) -> BValue {
        let d0 = Seq::<(Seq<char>, BValue)>::empty();
        let d1 = dict_insert(d0, "length"@, <u64 as IntoValue>::spec_into_value(m.length));
        let d2 = option_entry::<String>(d1, "md5sum"@, m.md5sum);
        let d3 = dict_insert(d2, "path"@, <Vec<String> as IntoValue>::spec_into_value(m.path));
        BValue::Dict(d3)
    }

    fn into_value(self) -> (r: Value) {
        let mut map: Vec<(String, Value)> = Vec::new();
        assert(map.deep_view() =~= Seq::<(Seq<char>, BValue)>::empty());
        insert(&mut map, "length", self.length);
        insert_option(&mut map, "md5sum", self.md5sum);
        insert(&mut map, "path", self.path);
        proof {
            lemma_dict_deep_view(map);
        }
        Value::Dict(map)
    }
}

impl DecodeFields for FileInfo {
    open spec fn spec_fields(s: Seq<u8>, p: int) -> Result<(FileInfoModel, int), (DecodeFailure, int)> {
        match field_of::<u64>(s, p, p, "length"@) {
            Err(e) => Err(e),
            Ok((length, q)) => match option_of::<String>(s, q, "md5sum"@) {
                Err(e) => Err(e),
                Ok((md5sum, r)) => match field_of::<Vec<String>>(s, r, r, "path"@) {
                    Err(e) => Err(e),
                    Ok((path, t)) => Ok((FileInfoModel { length, md5sum, path }, t)),
                },
            },
        }
    }

    fn decode_fields(d: &mut Decoder<'_>) -> (r: Result<FileInfo, DecodeError>) {
        let length: u64 = d.read_field("length")?;
        let md5sum: Option<String> = d.read_option("md5sum")?;
        let path: Vec<String> = d.read_field("path")?;
        Ok(FileInfo { length, md5sum, path })
    }
}

impl DecodeTo for FileInfo {
    open spec fn spec_decode(s: Seq<u8>, p: int) -> Result<(FileInfoModel, int), (DecodeFailure, int)> {
        struct_of::<FileInfo>(s, p)
    }

    fn decode(d: &mut Decoder<'_>) -> (r: Result<FileInfo, DecodeError>) {
        d.read_struct()
    }
}

// ----- the info dictionary -----

/// Reading the fields of a single-file `info`.
pub open spec fn single_from_value(v: BValue) -> Result<SingleInfoModel, DecodeFailure> {
    match field_value::<u64>(v, "length"@) {
        Err(e) => Err(e),
        Ok(length) => match option_field_value::<String>(v, "md5sum"@) {
            Err(e) => Err(e),
            Ok(md5sum) => match field_value::<String>(v, "name"@) {
                Err(e) => Err(e),
                Ok(name) => match field_value::<usize>(v, "piece length"@) {
                    Err(e) => Err(e),
                    Ok(piece_length) => match field_value::<Vec<Sha1>>(v, "pieces"@) {
                        Err(e) => Err(e),
                        Ok(pieces) => Ok(
                            SingleInfoModel { length, md5sum, name, piece_length, pieces },
                        ),
                    },
                },
            },
        },
    }
}

/// Reading the fields of a multi-file `info`.
pub open spec fn multi_from_value(v: BValue) -> Result<MultiInfoModel, DecodeFailure> {
    match field_value::<Vec<FileInfo>>(v, "files"@) {
        Err(e) => Err(e),
        Ok(files) => match field_value::<String>(v, "name"@) {
            Err(e) => Err(e),
            Ok(name) => match field_value::<usize>(v, "piece length"@) {
                Err(e) => Err(e),
                Ok(piece_length) => match field_value::<Vec<Sha1>>(v, "pieces"@) {
                    Err(e) => Err(e),
                    Ok(pieces) => Ok(MultiInfoModel { files, name, piece_length, pieces }),
                },
            },
        },
    }
}

impl FromValue for Info {
    /// A dictionary with a `files` field is a multi-file `info`.
    open spec fn spec_from_value(v: BValue) -> Result<InfoModel, DecodeFailure> {
        match lookup_option(v, "files"@) {
            Err(e) => Err(e),
            Ok(None) => match single_from_value(v) {
                Ok(m) => Ok(InfoModel::Single(m)),
                Err(e) => Err(e),
            },
            Ok(Some(_)) => match multi_from_value(v) {
                Ok(m) => Ok(InfoModel::Multi(m)),
                Err(e) => Err(e),
            },
        }
    }

    fn from_value(value: &Value) -> (r: Result<Info, DecodeError>) {
        match value.get_option_value("files")? {
            None => {
                let length: u64 = value.get_field("length")?;
                let md5sum: Option<String> = value.get_option_field("md5sum")?;
                let name: String = value.get_field("name")?;
                let piece_length: usize = value.get_field("piece length")?;
                let pieces: Vec<Sha1> = value.get_field("pieces")?;
                Ok(Info::Single(SingleInfo { length, md5sum, name, piece_length, pieces }))
            },
            Some(_) => {
                let files: Vec<FileInfo> = value.get_field("files")?;
                let name: String = value.get_field("name")?;
                let piece_length: usize = value.get_field("piece length")?;
                let pieces: Vec<Sha1> = value.get_field("pieces")?;
                Ok(Info::Multi(MultiInfo { files, name, piece_length, pieces }))
            },
        }
    }
}

impl IntoValue for Info {
    open spec fn spec_into_value(m: InfoModel) -> BValue {
        let d0 = Seq::<(Seq<char>, BValue)>::empty();
        match m {
            InfoModel::Multi(multi) => {
                let d1 = dict_insert(
                    d0,
                    "files"@,
                    <Vec<FileInfo> as IntoValue>::spec_into_value(multi.files),
                );
                let d2 = dict_insert(
                    d1,
                    "pieces"@,
                    <Vec<Sha1> as IntoValue>::spec_into_value(multi.pieces),
                );
                let d3 = dict_insert(d2, "name"@, <String as IntoValue>::spec_into_value(multi.name));
                let d4 = dict_insert(
                    d3,
                    "piece length"@,
                    <usize as IntoValue>::spec_into_value(multi.piece_length),
                );
                BValue::Dict(d4)
            },
            InfoModel::Single(single) => {
                let d1 = option_entry::<String>(d0, "md5sum"@, single.md5sum);
                let d2 = dict_insert(d1, "length"@, <u64 as IntoValue>::spec_into_value(single.length));
                let d3 = dict_insert(
                    d2,
                    "pieces"@,
                    <Vec<Sha1> as IntoValue>::spec_into_value(single.pieces),
                );
                let d4 = dict_insert(d3, "name"@, <String as IntoValue>::spec_into_value(single.name));
                let d5 = dict_insert(
                    d4,
                    "piece length"@,
                    <usize as IntoValue>::spec_into_value(single.piece_length),
                );
                BValue::Dict(d5)
            },
        }
    }

    fn into_value(self) -> (r: Value) {
        let mut map: Vec<(String, Value)> = Vec::new();
        assert(map.deep_view() =~= Seq::<(Seq<char>, BValue)>::empty());
        match self {
            Info::Multi(multi) => {
                insert(&mut map, "files", multi.files);
                insert(&mut map, "pieces", multi.pieces);
                insert(&mut map, "name", multi.name);
                insert(&mut map, "piece length", multi.piece_length);
            },
            Info::Single(single) => {
                insert_option(&mut map, "md5sum", single.md5sum);
                insert(&mut map, "length", single.length);
                insert(&mut map, "pieces", single.pieces);
                insert(&mut map, "name", single.name);
                insert(&mut map, "piece length", single.piece_length);
            },
        }
        proof {
            lemma_dict_deep_view(map);
        }
        Value::Dict(map)
    }
}

/// Reading the fields of a single-file `info`, from `p`.
pub open spec fn single_fields(s: Seq<u8>, p: int) -> Result<(SingleInfoModel, int), (DecodeFailure, int)> {
    match field_of::<u64>(s, p, p, "length"@) {
        Err(e) => Err(e),
        Ok((length, q)) => match option_of::<String>(s, q, "md5sum"@) {
            Err(e) => Err(e),
            Ok((md5sum, r)) => match field_of::<String>(s, r, r, "name"@) {
                Err(e) => Err(e),
                Ok((name, t)) => match field_of::<usize>(s, t, t, "piece length"@) {
                    Err(e) => Err(e),
                    Ok((piece_length, u)) => match field_of::<Vec<Sha1>>(s, u, u, "pieces"@) {
                        Err(e) => Err(e),
                        Ok((pieces, w)) => Ok(
                            (SingleInfoModel { length, md5sum, name, piece_length, pieces }, w),
                        ),
                    },
                },
            },
        },
    }
}

/// Reading the fields that follow `files` in a multi-file `info`.
pub open spec fn multi_fields(s: Seq<u8>, p: int, files: Seq<FileInfoModel>) -> Result<
    (MultiInfoModel, int),
    (DecodeFailure, int),
> {
    match field_of::<String>(s, p, p, "name"@) {
        Err(e) => Err(e),
        Ok((name, q)) => match field_of::<usize>(s, q, q, "piece length"@) {
            Err(e) => Err(e),
            Ok((piece_length, r)) => match field_of::<Vec<Sha1>>(s, r, r, "pieces"@) {
                Err(e) => Err(e),
                Ok((pieces, t)) => Ok((MultiInfoModel { files, name, piece_length, pieces }, t)),
            },
        },
    }
}

impl DecodeFields for Info {
    /// When reading `files` fails, for whatever reason, the fields of a
    /// single-file `info` are read from where that read stopped.
    open spec fn spec_fields(s: Seq<u8>, p: int) -> Result<(InfoModel, int), (DecodeFailure, int)> {
        match field_of::<Vec<FileInfo>>(s, p, p, "files"@) {
            Ok((files, q)) => match multi_fields(s, q, files) {
                Ok((m, r)) => Ok((InfoModel::Multi(m), r)),
                Err(e) => Err(e),
            },
            Err((_, q)) => match single_fields(s, q) {
                Ok((m, r)) => Ok((InfoModel::Single(m), r)),
                Err(e) => Err(e),
            },
        }
    }

    fn decode_fields(d: &mut Decoder<'_>) -> (r: Result<Info, DecodeError>) {
        let files_result: Result<Vec<FileInfo>, DecodeError> = d.read_field("files");
        match files_result {
            Ok(files) => {
                let name: String = d.read_field("name")?;
                let piece_length: usize = d.read_field("piece length")?;
                let pieces: Vec<Sha1> = d.read_field("pieces")?;
                Ok(Info::Multi(MultiInfo { files, name, piece_length, pieces }))
            },
            _ => {
                let length: u64 = d.read_field("length")?;
                let md5sum: Option<String> = d.read_option("md5sum")?;
                let name: String = d.read_field("name")?;
                let piece_length: usize = d.read_field("piece length")?;
                let pieces: Vec<Sha1> = d.read_field("pieces")?;
                Ok(Info::Single(SingleInfo { length, md5sum, name, piece_length, pieces }))
            },
        }
    }
}

impl DecodeTo for Info {
    open spec fn spec_decode(s: Seq<u8>, p: int) -> Result<(InfoModel, int), (DecodeFailure, int)> {
        struct_of::<Info>(s, p)
    }

    fn decode(d: &mut Decoder<'_>) -> (r: Result<Info, DecodeError>) {
        d.read_struct()
    }
}

// ----- the metainfo -----

impl FromValue for TorrentMetaInfo {
    open spec fn spec_from_value(v: BValue) -> Result<MetaInfoModel, DecodeFailure> {
        match field_value::<Info>(v, "info"@) {
            Err(e) => Err(e),
            Ok(info) => match option_field_value::<String>(v, "announce"@) {
                Err(e) => Err(e),
                Ok(announce) => match option_field_value::<Vec<Vec<String>>>(v, "announce-list"@) {
                    Err(e) => Err(e),
                    Ok(announce_list) => match option_field_value::<String>(v, "comment"@) {
                        Err(e) => Err(e),
                        Ok(comment) => match option_field_value::<String>(v, "created by"@) {
                            Err(e) => Err(e),
                            Ok(created_by) => match option_field_value::<String>(v, "encoding"@) {
                                Err(e) => Err(e),
                                Ok(encoding) => Ok(
                                    MetaInfoModel {
                                        info,
                                        announce,
                                        announce_list,
                                        creation_date: None,
                                        comment,
                                        created_by,
                                        encoding,
                                    },
                                ),
                            },
                        },
                    },
                },
            },
        }
    }

    fn from_value(value: &Value) -> (r: Result<TorrentMetaInfo, DecodeError>) {
        let info: Info = value.get_field("info")?;
        let announce: Option<String> = value.get_option_field("announce")?;
        let announce_list: Option<Vec<Vec<String>>> = value.get_option_field("announce-list")?;
        let comment: Option<String> = value.get_option_field("comment")?;
        let created_by: Option<String> = value.get_option_field("created by")?;
        let encoding: Option<String> = value.get_option_field("encoding")?;
        Ok(
            TorrentMetaInfo {
                info,
                announce,
                announce_list,
                creation_date: None,
                comment,
                created_by,
                encoding,
            },
        )
    }
}

impl IntoValue for TorrentMetaInfo {
    /// The creation date is not written.
    open spec fn spec_into_value(m: MetaInfoModel) -> BValue {
        let d0 = Seq::<(Seq<char>, BValue)>::empty();
        let d1 = option_entry::<String>(d0, "announce"@, m.announce);
        let d2 = option_entry::<Vec<Vec<String>>>(d1, "announce-list"@, m.announce_list);
        let d3 = option_entry::<String>(d2, "comment"@, m.comment);
        let d4 = option_entry::<String>(d3, "created by"@, m.created_by);
        let d5 = option_entry::<String>(d4, "encoding"@, m.encoding);
        let d6 = dict_insert(d5, "info"@, <Info as IntoValue>::spec_into_value(m.info));
        BValue::Dict(d6)
    }

    fn into_value(self) -> (r: Value) {
        let mut map: Vec<(String, Value)> = Vec::new();
        assert(map.deep_view() =~= Seq::<(Seq<char>, BValue)>::empty());
        insert_option(&mut map, "announce", self.announce);
        insert_option(&mut map, "announce-list", self.announce_list);
        insert_option(&mut map, "comment", self.comment);
        insert_option(&mut map, "created by", self.created_by);
        insert_option(&mut map, "encoding", self.encoding);
        insert(&mut map, "info", self.info);
        proof {
            lemma_dict_deep_view(map);
        }
        Value::Dict(map)
    }
}

impl DecodeFields for TorrentMetaInfo {
    /// The `announce-list` fields are gathered; at least one must be there.
    open spec fn spec_fields(s: Seq<u8>, p: int) -> Result<(MetaInfoModel, int), (DecodeFailure, int)> {
        match option_of::<String>(s, p, "announce"@) {
            Err(e) => Err(e),
            Ok((announce, q1)) => match combined_field_of::<Vec<String>>(
                s,
                q1,
                q1,
                seq![],
                "announce-list"@,
            ) {
                Err(e) => Err(e),
                Ok((announce_list, q2)) => match option_of::<String>(s, q2, "comment"@) {
                    Err(e) => Err(e),
                    Ok((comment, q3)) => match option_of::<String>(s, q3, "created by"@) {
                        Err(e) => Err(e),
                        Ok((created_by, q4)) => match option_of::<String>(s, q4, "encoding"@) {
                            Err(e) => Err(e),
                            Ok((encoding, q5)) => match field_of::<Info>(s, q5, q5, "info"@) {
                                Err(e) => Err(e),
                                Ok((info, q6)) => Ok(
                                    (
                                        MetaInfoModel {
                                            info,
                                            announce,
                                            announce_list,
                                            creation_date: None,
                                            comment,
                                            created_by,
                                            encoding,
                                        },
                                        q6,
                                    ),
                                ),
                            },
                        },
                    },
                },
            },
        }
    }

    fn decode_fields(d: &mut Decoder<'_>) -> (r: Result<TorrentMetaInfo, DecodeError>) {
        let announce: Option<String> = d.read_option("announce")?;
        let announce_list: Option<Vec<Vec<String>>> = d.read_field_combine("announce-list")?;
        let comment: Option<String> = d.read_option("comment")?;
        let created_by: Option<String> = d.read_option("created by")?;
        let encoding: Option<String> = d.read_option("encoding")?;
        let info: Info = d.read_field("info")?;
        Ok(
            TorrentMetaInfo {
                info,
                announce,
                announce_list,
                creation_date: None,
                comment,
                created_by,
                encoding,
            },
        )
    }
}

impl DecodeTo for TorrentMetaInfo {
    open spec fn spec_decode(s: Seq<u8>, p: int) -> Result<(MetaInfoModel, int), (DecodeFailure, int)> {
        struct_of::<TorrentMetaInfo>(s, p)
    }

    fn decode(d: &mut Decoder<'_>) -> (r: Result<TorrentMetaInfo, DecodeError>) {
        d.read_struct()
    }
}

/// What parsing a metainfo file gives: the bytes are read as a value, and
/// the value as a metainfo.
pub open spec fn parse_meta_info(bytes: Seq<u8>) -> Result<MetaInfoModel, DecodeFailure> {
    match parse_value(bytes, 0) {
        Err((e, _)) => Err(e),
        Ok((v, _)) => <TorrentMetaInfo as FromValue>::spec_from_value(v),
    }
}

/// The total length of some files.
pub open spec fn files_length(files: Seq<FileInfoModel>) -> int
    decreases files.len(),
{
    if files.len() == 0 {
        0
    } else {
        files_length(files.drop_last()) + files.last().length
    }
}

/// The number of bytes of a torrent's content.
pub open spec fn info_length(info: InfoModel) -> int {
    match info {
        InfoModel::Single(s) => s.length as int,
        InfoModel::Multi(m) => files_length(m.files),
    }
}

/// The piece length of an `info`.
pub open spec fn info_piece_length(info: InfoModel) -> usize {
    match info {
        InfoModel::Single(s) => s.piece_length,
        InfoModel::Multi(m) => m.piece_length,
    }
}

/// The piece hashes of an `info`.
pub open spec fn info_pieces(info: InfoModel) -> Seq<Seq<u8>> {
    match info {
        InfoModel::Single(s) => s.pieces,
        InfoModel::Multi(m) => m.pieces,
    }
}

/// The bytes whose hash is the info hash: the encoding of the `info`
/// dictionary.
pub open spec fn info_bytes(info: InfoModel) -> Seq<u8> {
    encode_value(<Info as IntoValue>::spec_into_value(info))
}

impl TorrentMetaInfo {
    /// Reads the metainfo in the bytes of a `.torrent` file, or says why it
    /// cannot.
    pub fn try_parse(bytes: &[u8]) -> (r: Result<TorrentMetaInfo, DecodeError>)
        ensures
            converted(r, parse_meta_info(bytes@)),
    {
        let mut d = Decoder::new(bytes);
        let v: Value = <Value as DecodeTo>::decode(&mut d)?;
        TorrentMetaInfo::from_value(&v)
    }

    /// Reads the metainfo in the bytes of a `.torrent` file, which must hold
    /// one.
    pub fn parse(bytes: &[u8]) -> (r: TorrentMetaInfo)
        requires
            parse_meta_info(bytes@) is Ok,
        ensures
            parse_meta_info(bytes@) == Ok::<MetaInfoModel, DecodeFailure>(r.deep_view()),
    {
        let r = TorrentMetaInfo::try_parse(bytes);
        assert(r is Ok);
        r.unwrap()
    }

    /// The number of bytes in each piece.
    pub fn piece_length(&self) -> (r: usize)
        ensures
            r == info_piece_length(self.info.deep_view()),
    {
        match &self.info {
            Info::Single(s) => s.piece_length,
            Info::Multi(m) => m.piece_length,
        }
    }

    /// The number of pieces.
    pub fn num_pieces(&self) -> (r: usize)
        ensures
            r == info_pieces(self.info.deep_view()).len(),
    {
        match &self.info {
            Info::Single(s) => s.pieces.len(),
            Info::Multi(m) => m.pieces.len(),
        }
    }

    /// The hashes of the pieces.
    pub fn pieces(&self) -> (r: &[Sha1])
        ensures
            r.deep_view() == info_pieces(self.info.deep_view()),
    {
        match &self.info {
            Info::Single(s) => s.pieces.as_slice(),
            Info::Multi(m) => m.pieces.as_slice(),
        }
    }

    /// The number of bytes of the torrent's content: the sum of the file
    /// lengths, which must fit in a `u64`.
    pub fn length(&self) -> (r: u64)
        requires
            info_length(self.info.deep_view()) <= u64::MAX,
        ensures
            r == info_length(self.info.deep_view()),
    {
        match &self.info {
            Info::Single(i) => i.length,
            Info::Multi(m) => {
                let mut len: u64 = 0;
                let mut i: usize = 0;
                let ghost files = m.files.deep_view();
                assert(files.take(0) =~= Seq::<FileInfoModel>::empty());
                while i < m.files.len()
                    invariant
                        i <= m.files@.len(),
                        files == m.files.deep_view(),
                        files_length(files) <= u64::MAX,
                        len == files_length(files.take(i as int)),
                    decreases m.files@.len() - i,
                {
                    proof {
                        lemma_files_length_prefix(files, i + 1);
                        assert(files.take(i + 1).drop_last() =~= files.take(i as int));
                        assert(files[i as int] == m.files@[i as int].deep_view());
                    }
                    len = len + m.files[i].length;
                    i = i + 1;
                }
                assert(files.take(i as int) =~= files);
                len
            },
        }
    }

    /// The SHA-1 hash of the encoded `info` dictionary, which identifies the
    /// torrent.
    pub fn info_hash(&self) -> (r: Sha1)
        requires
            info_bytes(self.info.deep_view()).len() * 8 <= u64::MAX,
        ensures
            r@ == sha1_digest(info_bytes(self.info.deep_view())),
    {
        let info = self.info.clone();
        let v = info.into_value();
        let mut encoder = Encoder::new();
        let res = v.encode(&mut encoder);
        assert(res is Ok);
        let bytes = encoder.into_bytes();
        Sha1::calculate_sha1(bytes.as_slice())
    }

    /// The announce URL, which must be there.
    pub fn announce(&mut self) -> (r: String)
        requires
            old(self).announce is Some,
        ensures
            old(self).announce.deep_view() == Some(r@),
            final(self).deep_view() == old(self).deep_view(),
    {
        match &self.announce_list {
            Some(_v) => match &self.announce {
                Some(a) => a.clone(),
                None => {
                    assert(false);
                    String::new()
                },
            },
            None => match &self.announce {
                Some(a) => a.clone(),
                None => {
                    assert(false);
                    String::new()
                },
            },
        }
    }
}

/// A prefix of the files is no longer than all of them.
proof fn lemma_files_length_prefix(files: Seq<FileInfoModel>, n: int)
    requires
        0 <= n <= files.len(),
    ensures
        files_length(files.take(n)) <= files_length(files),
    decreases files.len(),
{
    if n < files.len() {
        lemma_files_length_prefix(files.drop_last(), n);
        assert(files.drop_last().take(n) =~= files.take(n));
    } else {
        assert(files.take(n) =~= files);
    }
}

// ----- reading back what was written -----

/// Looking up the key of an optional entry finds what was there.
proof fn lemma_lookup_option_entry<T: IntoValue>(
    d: Seq<(Seq<char>, BValue)>,
    k: Seq<char>,
    o: Option<<T as DeepView>::V>,
    other: Seq<char>,
)
    ensures
        dict_lookup(option_entry::<T>(d, k, o), k) == match o {
            Some(x) => Some(T::spec_into_value(x)),
            None => dict_lookup(d, k),
        },
        other != k ==> dict_lookup(option_entry::<T>(d, k, o), other) == dict_lookup(d, other),
{
    match o {
        Some(x) => {
            lemma_lookup_insert_same(d, k, T::spec_into_value(x));
            if other != k {
                lemma_lookup_insert_other(d, k, T::spec_into_value(x), other);
            }
        },
        None => {},
    }
}

/// An optional string field reads back from the entry that it became.
proof fn lemma_option_string_field(v: BValue, d: Seq<(Seq<char>, BValue)>, k: Seq<char>, o: Option<Seq<char>>)
    requires
        v == BValue::Dict(d),
        dict_lookup(d, k) == match o {
            Some(x) => Some(<String as IntoValue>::spec_into_value(x)),
            None => None::<BValue>,
        },
    ensures
        option_field_value::<String>(v, k) == Ok::<Option<Seq<char>>, DecodeFailure>(o),
{
}

/// The keys of the metainfo dictionaries are all different.
proof fn lemma_keys_differ()
    ensures
        "length"@ != "md5sum"@,
        "length"@ != "path"@,
        "md5sum"@ != "path"@,
        "files"@ != "pieces"@,
        "files"@ != "name"@,
        "files"@ != "piece length"@,
        "files"@ != "md5sum"@,
        "files"@ != "length"@,
        "pieces"@ != "name"@,
        "pieces"@ != "piece length"@,
        "pieces"@ != "md5sum"@,
        "pieces"@ != "length"@,
        "name"@ != "piece length"@,
        "name"@ != "md5sum"@,
        "name"@ != "length"@,
        "piece length"@ != "md5sum"@,
        "piece length"@ != "length"@,
        "announce"@ != "announce-list"@,
        "announce"@ != "comment"@,
        "announce"@ != "created by"@,
        "announce"@ != "encoding"@,
        "announce"@ != "info"@,
        "announce-list"@ != "comment"@,
        "announce-list"@ != "created by"@,
        "announce-list"@ != "encoding"@,
        "announce-list"@ != "info"@,
        "comment"@ != "created by"@,
        "comment"@ != "encoding"@,
        "comment"@ != "info"@,
        "created by"@ != "encoding"@,
        "created by"@ != "info"@,
        "encoding"@ != "info"@,
{
    reveal_strlit("length");
    reveal_strlit("md5sum");
    reveal_strlit("path");
    reveal_strlit("files");
    reveal_strlit("pieces");
    reveal_strlit("name");
    reveal_strlit("piece length");
    reveal_strlit("announce");
    reveal_strlit("announce-list");
    reveal_strlit("comment");
    reveal_strlit("created by");
    reveal_strlit("encoding");
    reveal_strlit("info");
    assert("length"@[0] != "md5sum"@[0]);
    assert("length"@[0] != "path"@[0]);
    assert("md5sum"@[0] != "path"@[0]);
    assert("files"@[0] != "pieces"@[0]);
    assert("files"@[0] != "name"@[0]);
    assert("files"@[0] != "piece length"@[0]);
    assert("files"@[0] != "md5sum"@[0]);
    assert("files"@[0] != "length"@[0]);
    assert("pieces"@[1] != "piece length"@[1] || "pieces"@.len() != "piece length"@.len());
    assert("pieces"@[0] != "name"@[0]);
    assert("pieces"@[0] != "md5sum"@[0]);
    assert("pieces"@[0] != "length"@[0]);
    assert("name"@[0] != "piece length"@[0]);
    assert("name"@[0] != "md5sum"@[0]);
    assert("name"@[0] != "length"@[0]);
    assert("piece length"@[0] != "md5sum"@[0]);
    assert("piece length"@[0] != "length"@[0]);
    assert("announce"@.len() != "announce-list"@.len());
    assert("announce"@[0] != "comment"@[0]);
    assert("announce"@[0] != "created by"@[0]);
    assert("announce"@[0] != "encoding"@[0]);
    assert("announce"@[0] != "info"@[0]);
    assert("announce-list"@[0] != "comment"@[0]);
    assert("announce-list"@[0] != "created by"@[0]);
    assert("announce-list"@[0] != "encoding"@[0]);
    assert("announce-list"@[0] != "info"@[0]);
    assert("comment"@[1] != "created by"@[1]);
    assert("comment"@[0] != "encoding"@[0]);
    assert("comment"@[0] != "info"@[0]);
    assert("created by"@[0] != "encoding"@[0]);
    assert("created by"@[0] != "info"@[0]);
    assert("encoding"@[0] != "info"@[0]);
}

/// A file entry reads back from the value that it becomes.
pub proof fn lemma_file_info_round_trip(m: FileInfoModel)
    ensures
        <FileInfo as FromValue>::spec_from_value(<FileInfo as IntoValue>::spec_into_value(m))
            == Ok::<FileInfoModel, DecodeFailure>(m),
{
    lemma_keys_differ();
    let d0 = Seq::<(Seq<char>, BValue)>::empty();
    let d1 = dict_insert(d0, "length"@, <u64 as IntoValue>::spec_into_value(m.length));
    let d2 = option_entry::<String>(d1, "md5sum"@, m.md5sum);
    let d3 = dict_insert(d2, "path"@, <Vec<String> as IntoValue>::spec_into_value(m.path));
    let v = BValue::Dict(d3);
    lemma_lookup_insert_same(d0, "length"@, <u64 as IntoValue>::spec_into_value(m.length));
    lemma_lookup_option_entry::<String>(d1, "md5sum"@, m.md5sum, "length"@);
    lemma_lookup_insert_other(d2, "path"@, <Vec<String> as IntoValue>::spec_into_value(m.path), "length"@);
    lemma_integer_round_trip(0, 0, 0, m.length, 0, 0, 0, 0, 0, 0);
    assert(field_value::<u64>(v, "length"@) == Ok::<u64, DecodeFailure>(m.length));
    assert(dict_lookup(d0, "md5sum"@) is None);
    lemma_lookup_insert_other(d0, "length"@, <u64 as IntoValue>::spec_into_value(m.length), "md5sum"@);
    lemma_lookup_insert_other(d2, "path"@, <Vec<String> as IntoValue>::spec_into_value(m.path), "md5sum"@);
    lemma_option_string_field(v, d3, "md5sum"@, m.md5sum);
    lemma_lookup_insert_same(d2, "path"@, <Vec<String> as IntoValue>::spec_into_value(m.path));
    assert forall|x: Seq<char>| #[trigger] <String as FromValue>::spec_from_value(
        <String as IntoValue>::spec_into_value(x),
    ) == Ok::<Seq<char>, DecodeFailure>(x) by {
        lemma_string_round_trip(x);
    }
    lemma_list_round_trip::<String>(m.path);
}

/// An optional field reads back from the entry that it became, when its
/// value does.
proof fn lemma_option_field<T: FromValue + IntoValue>(
    v: BValue,
    d: Seq<(Seq<char>, BValue)>,
    k: Seq<char>,
    o: Option<<T as DeepView>::V>,
)
    requires
        v == BValue::Dict(d),
        dict_lookup(d, k) == match o {
            Some(x) => Some(T::spec_into_value(x)),
            None => None::<BValue>,
        },
        match o {
            Some(x) => T::spec_from_value(T::spec_into_value(x)) == Ok::<
                <T as DeepView>::V,
                DecodeFailure,
            >(x),
            None => true,
        },
    ensures
        option_field_value::<T>(v, k) == Ok::<Option<<T as DeepView>::V>, DecodeFailure>(o),
{
}

/// Every piece hash has twenty bytes.
pub open spec fn hashes_wf(pieces: Seq<Seq<u8>>) -> bool {
    forall|i: int| 0 <= i < pieces.len() ==> (#[trigger] pieces[i]).len() == 20
}

/// An `info` reads back from the value that it becomes, when its piece
/// hashes have twenty bytes each, as those of every `Info` do.
pub proof fn lemma_info_round_trip(m: InfoModel)
    requires
        hashes_wf(info_pieces(m)),
    ensures
        <Info as FromValue>::spec_from_value(<Info as IntoValue>::spec_into_value(m)) == Ok::<
            InfoModel,
            DecodeFailure,
        >(m),
{
    lemma_keys_differ();
    let d0 = Seq::<(Seq<char>, BValue)>::empty();
    assert(dict_lookup(d0, "files"@) is None);
    assert(dict_lookup(d0, "md5sum"@) is None);
    match m {
        InfoModel::Multi(multi) => {
            let files = <Vec<FileInfo> as IntoValue>::spec_into_value(multi.files);
            let pieces = <Vec<Sha1> as IntoValue>::spec_into_value(multi.pieces);
            let name = <String as IntoValue>::spec_into_value(multi.name);
            let pl = <usize as IntoValue>::spec_into_value(multi.piece_length);
            let d1 = dict_insert(d0, "files"@, files);
            let d2 = dict_insert(d1, "pieces"@, pieces);
            let d3 = dict_insert(d2, "name"@, name);
            let d4 = dict_insert(d3, "piece length"@, pl);
            let v = BValue::Dict(d4);
            lemma_lookup_insert_same(d0, "files"@, files);
            lemma_lookup_insert_other(d1, "pieces"@, pieces, "files"@);
            lemma_lookup_insert_other(d2, "name"@, name, "files"@);
            lemma_lookup_insert_other(d3, "piece length"@, pl, "files"@);
            lemma_lookup_insert_same(d1, "pieces"@, pieces);
            lemma_lookup_insert_other(d2, "name"@, name, "pieces"@);
            lemma_lookup_insert_other(d3, "piece length"@, pl, "pieces"@);
            lemma_lookup_insert_same(d2, "name"@, name);
            lemma_lookup_insert_other(d3, "piece length"@, pl, "name"@);
            lemma_lookup_insert_same(d3, "piece length"@, pl);
            assert forall|x: FileInfoModel| #[trigger] <FileInfo as FromValue>::spec_from_value(
                <FileInfo as IntoValue>::spec_into_value(x),
            ) == Ok::<FileInfoModel, DecodeFailure>(x) by {
                lemma_file_info_round_trip(x);
            }
            lemma_list_round_trip::<FileInfo>(multi.files);
            lemma_sha1_list_round_trip(multi.pieces);
            lemma_integer_round_trip(0, 0, 0, 0, multi.piece_length, 0, 0, 0, 0, 0);
            assert(multi_from_value(v) == Ok::<MultiInfoModel, DecodeFailure>(multi));
        },
        InfoModel::Single(single) => {
            let length = <u64 as IntoValue>::spec_into_value(single.length);
            let pieces = <Vec<Sha1> as IntoValue>::spec_into_value(single.pieces);
            let name = <String as IntoValue>::spec_into_value(single.name);
            let pl = <usize as IntoValue>::spec_into_value(single.piece_length);
            let d1 = option_entry::<String>(d0, "md5sum"@, single.md5sum);
            let d2 = dict_insert(d1, "length"@, length);
            let d3 = dict_insert(d2, "pieces"@, pieces);
            let d4 = dict_insert(d3, "name"@, name);
            let d5 = dict_insert(d4, "piece length"@, pl);
            let v = BValue::Dict(d5);
            lemma_lookup_option_entry::<String>(d0, "md5sum"@, single.md5sum, "files"@);
            lemma_lookup_insert_other(d1, "length"@, length, "files"@);
            lemma_lookup_insert_other(d2, "pieces"@, pieces, "files"@);
            lemma_lookup_insert_other(d3, "name"@, name, "files"@);
            lemma_lookup_insert_other(d4, "piece length"@, pl, "files"@);
            lemma_lookup_insert_other(d1, "length"@, length, "md5sum"@);
            lemma_lookup_insert_other(d2, "pieces"@, pieces, "md5sum"@);
            lemma_lookup_insert_other(d3, "name"@, name, "md5sum"@);
            lemma_lookup_insert_other(d4, "piece length"@, pl, "md5sum"@);
            lemma_lookup_insert_same(d1, "length"@, length);
            lemma_lookup_insert_other(d2, "pieces"@, pieces, "length"@);
            lemma_lookup_insert_other(d3, "name"@, name, "length"@);
            lemma_lookup_insert_other(d4, "piece length"@, pl, "length"@);
            lemma_lookup_insert_same(d2, "pieces"@, pieces);
            lemma_lookup_insert_other(d3, "name"@, name, "pieces"@);
            lemma_lookup_insert_other(d4, "piece length"@, pl, "pieces"@);
            lemma_lookup_insert_same(d3, "name"@, name);
            lemma_lookup_insert_other(d4, "piece length"@, pl, "name"@);
            lemma_lookup_insert_same(d4, "piece length"@, pl);
            lemma_option_field::<String>(v, d5, "md5sum"@, single.md5sum);
            lemma_sha1_list_round_trip(single.pieces);
            lemma_integer_round_trip(0, 0, 0, single.length, single.piece_length, 0, 0, 0, 0, 0);
            assert(lookup_option(v, "files"@) == Ok::<Option<BValue>, DecodeFailure>(None));
            assert(single_from_value(v) == Ok::<SingleInfoModel, DecodeFailure>(single));
        },
    }
}

/// A metainfo reads back from the value that it becomes, when it has no
/// creation date (which is not written) and its piece hashes have twenty
/// bytes each.
pub proof fn lemma_meta_info_round_trip(m: MetaInfoModel)
    requires
        m.creation_date is None,
        hashes_wf(info_pieces(m.info)),
    ensures
        <TorrentMetaInfo as FromValue>::spec_from_value(
            <TorrentMetaInfo as IntoValue>::spec_into_value(m),
        ) == Ok::<MetaInfoModel, DecodeFailure>(m),
{
    lemma_keys_differ();
    let d0 = Seq::<(Seq<char>, BValue)>::empty();
    let info = <Info as IntoValue>::spec_into_value(m.info);
    let d1 = option_entry::<String>(d0, "announce"@, m.announce);
    let d2 = option_entry::<Vec<Vec<String>>>(d1, "announce-list"@, m.announce_list);
    let d3 = option_entry::<String>(d2, "comment"@, m.comment);
    let d4 = option_entry::<String>(d3, "created by"@, m.created_by);
    let d5 = option_entry::<String>(d4, "encoding"@, m.encoding);
    let d6 = dict_insert(d5, "info"@, info);
    let v = BValue::Dict(d6);
    assert(dict_lookup(d0, "announce"@) is None);
    assert(dict_lookup(d0, "announce-list"@) is None);
    assert(dict_lookup(d0, "comment"@) is None);
    assert(dict_lookup(d0, "created by"@) is None);
    assert(dict_lookup(d0, "encoding"@) is None);
    // info
    lemma_lookup_insert_same(d5, "info"@, info);
    lemma_info_round_trip(m.info);
    // announce
    lemma_lookup_option_entry::<String>(d0, "announce"@, m.announce, "announce-list"@);
    lemma_lookup_option_entry::<Vec<Vec<String>>>(d1, "announce-list"@, m.announce_list, "announce"@);
    lemma_lookup_option_entry::<String>(d2, "comment"@, m.comment, "announce"@);
    lemma_lookup_option_entry::<String>(d3, "created by"@, m.created_by, "announce"@);
    lemma_lookup_option_entry::<String>(d4, "encoding"@, m.encoding, "announce"@);
    lemma_lookup_insert_other(d5, "info"@, info, "announce"@);
    lemma_option_field::<String>(v, d6, "announce"@, m.announce);
    // announce-list
    lemma_lookup_option_entry::<String>(d2, "comment"@, m.comment, "announce-list"@);
    lemma_lookup_option_entry::<String>(d3, "created by"@, m.created_by, "announce-list"@);
    lemma_lookup_option_entry::<String>(d4, "encoding"@, m.encoding, "announce-list"@);
    lemma_lookup_insert_other(d5, "info"@, info, "announce-list"@);
    assert forall|x: Seq<char>| #[trigger] <String as FromValue>::spec_from_value(
        <String as IntoValue>::spec_into_value(x),
    ) == Ok::<Seq<char>, DecodeFailure>(x) by {
        lemma_string_round_trip(x);
    }
    assert forall|x: Seq<Seq<char>>| #[trigger] <Vec<String> as FromValue>::spec_from_value(
        <Vec<String> as IntoValue>::spec_into_value(x),
    ) == Ok::<Seq<Seq<char>>, DecodeFailure>(x) by {
        lemma_list_round_trip::<String>(x);
    }
    match m.announce_list {
        Some(l) => {
            lemma_list_round_trip::<Vec<String>>(l);
        },
        None => {},
    }
    lemma_option_field::<Vec<Vec<String>>>(v, d6, "announce-list"@, m.announce_list);
    // comment
    lemma_lookup_option_entry::<Vec<Vec<String>>>(d1, "announce-list"@, m.announce_list, "comment"@);
    lemma_lookup_option_entry::<String>(d0, "announce"@, m.announce, "comment"@);
    lemma_lookup_option_entry::<String>(d2, "comment"@, m.comment, "created by"@);
    lemma_lookup_option_entry::<String>(d3, "created by"@, m.created_by, "comment"@);
    lemma_lookup_option_entry::<String>(d4, "encoding"@, m.encoding, "comment"@);
    lemma_lookup_insert_other(d5, "info"@, info, "comment"@);
    lemma_option_field::<String>(v, d6, "comment"@, m.comment);
    // created by
    lemma_lookup_option_entry::<Vec<Vec<String>>>(d1, "announce-list"@, m.announce_list, "created by"@);
    lemma_lookup_option_entry::<String>(d0, "announce"@, m.announce, "created by"@);
    lemma_lookup_option_entry::<String>(d3, "created by"@, m.created_by, "encoding"@);
    lemma_lookup_option_entry::<String>(d4, "encoding"@, m.encoding, "created by"@);
    lemma_lookup_insert_other(d5, "info"@, info, "created by"@);
    lemma_option_field::<String>(v, d6, "created by"@, m.created_by);
    // encoding
    lemma_lookup_option_entry::<Vec<Vec<String>>>(d1, "announce-list"@, m.announce_list, "encoding"@);
    lemma_lookup_option_entry::<String>(d0, "announce"@, m.announce, "encoding"@);
    lemma_lookup_option_entry::<String>(d2, "comment"@, m.comment, "encoding"@);
    lemma_lookup_insert_other(d5, "info"@, info, "encoding"@);
    lemma_option_field::<String>(v, d6, "encoding"@, m.encoding);
}

/// The info hash depends on the `info` dictionary alone: two metainfos
/// with the same `info`, whatever else they hold, hash the same bytes.
pub proof fn lemma_info_hash_of_info(m1: MetaInfoModel, m2: MetaInfoModel)
    requires
        m1.info == m2.info,
    ensures
        sha1_digest(info_bytes(m1.info)) == sha1_digest(info_bytes(m2.info)),
        info_bytes(m1.info) == encode_value(<Info as IntoValue>::spec_into_value(m2.info)),
{
}

/// Decoding a metainfo reads its `announce` key: when a well formed
/// dictionary stores the string `a` under `announce`, a metainfo decoded
/// from its encoding has `a` as its announce URL, whatever other keys the
/// dictionary holds.
pub proof fn lemma_decode_reads_announce(d: Seq<(Seq<char>, BValue)>, a: Seq<char>)
    requires
        wf_value(BValue::Dict(d)),
        dict_lookup(d, "announce"@) == Some(BValue::Str(a)),
    ensures
        <TorrentMetaInfo as DecodeTo>::spec_decode(encode_value(BValue::Dict(d)), 0) matches Ok(
            (m, _),
        ) ==> m.announce == Some(a),
{
    let s = encode_value(BValue::Dict(d));
    let entries = encode_entries(d);
    assert(s == seq![DICT_START] + entries + seq![END]);
    assert(s.subrange(1, 1 + entries.len() + 1 as int) =~= entries + seq![END]);
    lemma_field_of_encoded_str(d, s, 1, 1, "announce"@, a);
}

} // verus!
