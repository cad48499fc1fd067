//! The layout of a download: pieces split into blocks, and the torrent's
//! bytes laid out over its files one after the other.
use crate::base::ipc::Ipc;
use crate::base::meta_info::{
    info_pieces, info_piece_length, FileInfoModel, Info, InfoModel, TorrentMetaInfo,
};
use crate::bencode::decode::{str_bytes, string_from_utf8};
use crate::bencode::hash::{sha1_digest, Sha1};
use crate::peer::request_queue::RequestMetadata;
use vstd::prelude::*;
use vstd::utf8::{
    decode_utf8_encode_utf8, encode_utf8, encode_utf8_valid_utf8, valid_utf8, valid_utf8_concat,
};

verus! {

/// The number of bytes in a block, but for the last block of a piece.
pub const BLOCK_SIZE: u32 = 16384;

/// A block of a piece.
#[derive(Debug, Clone, Copy, PartialEq, Eq)]
pub struct Block {
    pub index: u32,
    pub length: u32,
    pub is_complete: bool,
}

impl Block {
    fn new(index: u32, length: u32) -> (r: Block)
        ensures
            r == (Block { index, length, is_complete: false }),
    {
        Block { index, length, is_complete: false }
    }
}

/// The number of blocks of a piece of `length` bytes.
pub open spec fn num_blocks(length: u32) -> int {
    (length + BLOCK_SIZE - 1) / (BLOCK_SIZE as int)
}

/// The length of block `i` of a piece of `length` bytes: a full block but
/// for the last, which holds the rest.
pub open spec fn block_length(length: u32, i: int) -> int {
    if i < num_blocks(length) - 1 {
        BLOCK_SIZE as int
    } else {
        length - BLOCK_SIZE * (num_blocks(length) - 1)
    }
}

/// A piece: where it starts in the torrent, its hash, and its blocks.
#[derive(Debug)]
pub struct Piece {
    pub length: u32,
    pub offset: u64,
    pub hash: Sha1,
    pub blocks: Vec<Block>,
    pub is_complete: bool,
}

impl Piece {
    /// A piece whose blocks are all missing.
    pub fn new(length: u32, offset: u64, hash: Sha1) -> (r: Piece)
        ensures
            r.length == length,
            r.offset == offset,
            r.hash == hash,
            !r.is_complete,
            r.blocks@.len() == num_blocks(length),
            forall|i: int|
                0 <= i < r.blocks@.len() ==> #[trigger] r.blocks@[i] == (Block {
                    index: i as u32,
                    length: block_length(length, i) as u32,
                    is_complete: false,
                }),
    {
        let count: u32 = ((length as u64 + 16383) / 16384) as u32;
        let mut blocks: Vec<Block> = Vec::new();
        let mut i: u32 = 0;
        while i < count
            invariant
                count == num_blocks(length),
                i <= count,
                blocks@.len() == i,
                forall|k: int|
                    0 <= k < i ==> #[trigger] blocks@[k] == (Block {
                        index: k as u32,
                        length: block_length(length, k) as u32,
                        is_complete: false,
                    }),
            decreases count - i,
        {
            let len = if i < count - 1 {
                BLOCK_SIZE
            } else {
                assert(BLOCK_SIZE * (count - 1) <= length) by (nonlinear_arith)
                    requires
                        count == (length + 16383) / 16384,
                        count >= 1,
                ;
                length - BLOCK_SIZE * (count - 1)
            };
            blocks.push(Block::new(i, len));
            i = i + 1;
        }
        Piece { length, offset, hash, blocks, is_complete: false }
    }

    /// Whether the block is stored.
    pub fn has_block(&self, block_index: u32) -> (r: bool)
        requires
            block_index < self.blocks@.len(),
        ensures
            r == self.blocks@[block_index as int].is_complete,
    {
        self.blocks[block_index as usize].is_complete
    }

    /// Whether every block is stored.
    pub fn has_all_blocks(&self) -> (r: bool)
        ensures
            r == all_blocks(self.blocks@),
    {
        let mut i: usize = 0;
        while i < self.blocks.len()
            invariant
                i <= self.blocks@.len(),
                forall|k: int| 0 <= k < i ==> (#[trigger] self.blocks@[k]).is_complete,
            decreases self.blocks@.len() - i,
        {
            if !self.blocks[i].is_complete {
                return false;
            }
            i = i + 1;
        }
        true
    }

    /// Marks every block missing again.
    pub fn reset_blocks(&mut self)
        ensures
            final(self).blocks@.len() == old(self).blocks@.len(),
            forall|k: int|
                0 <= k < final(self).blocks@.len() ==> #[trigger] final(self).blocks@[k] == (Block {
                    is_complete: false,
                    ..old(self).blocks@[k]
                }),
            final(self).length == old(self).length,
            final(self).offset == old(self).offset,
            final(self).hash == old(self).hash,
            final(self).is_complete == old(self).is_complete,
    {
        let mut i: usize = 0;
        let ghost orig = self.blocks@;
        while i < self.blocks.len()
            invariant
                i <= self.blocks@.len(),
                self.blocks@.len() == orig.len(),
                self.length == old(self).length,
                self.offset == old(self).offset,
                self.hash == old(self).hash,
                self.is_complete == old(self).is_complete,
                orig == old(self).blocks@,
                forall|k: int|
                    0 <= k < self.blocks@.len() ==> #[trigger] self.blocks@[k] == (if k < i {
                        Block { is_complete: false, ..orig[k] }
                    } else {
                        orig[k]
                    }),
            decreases self.blocks@.len() - i,
        {
            let b = self.blocks[i];
            self.blocks.set(i, Block { is_complete: false, ..b });
            i = i + 1;
        }
    }
}

/// Whether every block is stored.
pub open spec fn all_blocks(blocks: Seq<Block>) -> bool {
    forall|k: int| 0 <= k < blocks.len() ==> (#[trigger] blocks[k]).is_complete
}

/// File offsets: there is at least one, and they never decrease.
pub open spec fn offsets_sorted(fo: Seq<u64>) -> bool {
    &&& fo.len() >= 1
    &&& forall|i: int, j: int| 0 <= i <= j < fo.len() ==> fo[i] <= fo[j]
}

/// The file that holds byte `offset`: its start is at or before the
/// offset, and when the offset is past its start, the next file starts
/// after it.
pub open spec fn holds_offset(fo: Seq<u64>, offset: int, i: int) -> bool {
    &&& 0 <= i < fo.len()
    &&& fo[i] <= offset
    &&& (fo[i] < offset && i + 1 < fo.len()) ==> offset < fo[i + 1]
}

/// Finds, by binary search, the file that holds byte `offset`.
pub fn search_index(file_offsets: &[u64], offset: u64) -> (r: usize)
    requires
        offsets_sorted(file_offsets@),
        file_offsets@[0] <= offset,
    ensures
        holds_offset(file_offsets@, offset as int, r as int),
{
    let len = file_offsets.len();
    let mut left: usize = 0;
    let mut right: usize = len - 1;
    while left <= right
        invariant
            offsets_sorted(file_offsets@),
            file_offsets@[0] <= offset,
            len == file_offsets@.len(),
            right < len,
            left <= right + 1,
            forall|k: int| 0 <= k < left ==> #[trigger] file_offsets@[k] < offset,
            forall|k: int| right < k < len ==> offset < #[trigger] file_offsets@[k],
        decreases right + 1 - left,
    {
        let mid = left + (right - left) / 2;
        if offset == file_offsets[mid] {
            return mid;
        } else if offset < file_offsets[mid] {
            assert(mid > 0) by {
                assert(file_offsets@[0] <= offset);
            }
            assert forall|k: int| mid - 1 < k < len implies offset < #[trigger] file_offsets@[k] by {
                assert(file_offsets@[mid as int] <= file_offsets@[k] || k < mid);
            }
            right = mid - 1;
        } else {
            assert forall|k: int| 0 <= k < mid + 1 implies #[trigger] file_offsets@[k] < offset by {
                assert(file_offsets@[k] <= file_offsets@[mid as int]);
            }
            left = mid + 1;
        }
    }
    assert(left == right + 1);
    assert(right < left);
    right
}

/// `v` cuts the bytes `offset .. offset + len` of the torrent at file
/// boundaries, from the file `index` on: each entry is (where it starts in
/// the data, where it starts in its file, its length), the entry `k` being
/// in file `index + k`.
pub open spec fn segments_of(
    fo: Seq<u64>,
    offset: int,
    len: int,
    index: int,
    v: Seq<(usize, u64, usize)>,
) -> bool {
    &&& v.len() >= 1
    &&& index + v.len() < fo.len()
    &&& v[0].0 == 0
    &&& v.last().0 + v.last().2 == len
    &&& forall|k: int|
        0 <= k < v.len() ==> {
            &&& fo[index + k] + (#[trigger] v[k]).1 == offset + v[k].0
            &&& fo[index + k] + v[k].1 + v[k].2 <= fo[index + k + 1]
            &&& (k > 0 ==> v[k].1 == 0 && v[k].0 == v[k - 1].0 + v[k - 1].2)
            &&& (k + 1 < v.len() ==> fo[index + k] + v[k].1 + v[k].2 == fo[index + k + 1]
                && v[k].0 + v[k].2 < len)
        }
}

/// Cuts `len` bytes at `offset` at the boundaries of the files: returns the
/// file where they start and, for each file that they reach, where the part
/// starts in the data, where it starts in the file, and its length.
pub fn search_ptrs(file_offsets: &[u64], offset: u64, len: usize) -> (r: (
    usize,
    Vec<(usize, u64, usize)>,
))
    requires
        offsets_sorted(file_offsets@),
        file_offsets@[0] <= offset,
        offset < file_offsets@.last(),
        offset + len <= file_offsets@.last(),
    ensures
        holds_offset(file_offsets@, offset as int, r.0 as int),
        segments_of(file_offsets@, offset as int, len as int, r.0 as int, r.1@),
{
    let index = search_index(file_offsets, offset);
    let n = file_offsets.len();
    assert(index + 1 < n) by {
        if index + 1 >= n {
            assert(file_offsets@[index as int] == file_offsets@.last());
        }
    }
    let mut vec: Vec<(usize, u64, usize)> = Vec::new();
    let mut i = index;
    let mut data_ptr: usize = 0;
    let mut left = len as u64;
    let mut file_ptr = offset - file_offsets[i];
    while left + file_offsets[i] + file_ptr > file_offsets[i + 1]
        invariant
            offsets_sorted(file_offsets@),
            n == file_offsets@.len(),
            offset + len <= file_offsets@.last(),
            index <= i,
            i + 1 < n,
            i == index + vec@.len(),
            data_ptr + left == len,
            file_offsets@[i as int] + file_ptr == offset + data_ptr,
            file_offsets@[i as int] + file_ptr <= file_offsets@[i + 1] || left
                + file_offsets@[i as int] + file_ptr > file_offsets@[i + 1],
            file_offsets@[i as int] + file_ptr <= file_offsets@[i + 1],
            vec@.len() == 0 ==> data_ptr == 0 && file_ptr == offset - file_offsets@[index as int],
            vec@.len() > 0 ==> file_ptr == 0 && data_ptr == vec@.last().0 + vec@.last().2,
            forall|k: int|
                0 <= k < vec@.len() ==> {
                    &&& file_offsets@[index + k] + (#[trigger] vec@[k]).1 == offset + vec@[k].0
                    &&& file_offsets@[index + k] + vec@[k].1 + vec@[k].2 == file_offsets@[index + k
                        + 1]
                    &&& (k > 0 ==> vec@[k].1 == 0 && vec@[k].0 == vec@[k - 1].0 + vec@[k - 1].2)
                    &&& vec@[k].0 + vec@[k].2 < len
                },
            vec@.len() > 0 ==> vec@[0].0 == 0,
        decreases n - i,
    {
        let l = file_offsets[i + 1] - file_offsets[i] - file_ptr;
        vec.push((data_ptr, file_ptr, l as usize));
        data_ptr = data_ptr + l as usize;
        left = left - l;
        file_ptr = 0;
        i = i + 1;
        assert(i + 1 < n) by {
            if i + 1 >= n {
                assert(file_offsets@[i as int] == file_offsets@.last());
            }
        }
        assert(file_offsets@[i as int] <= file_offsets@[i + 1]);
    }
    vec.push((data_ptr, file_ptr, left as usize));
    (index, vec)
}

// ----- files and pieces of a torrent -----

/// The bytes of a path: its parts joined by `/`.
pub open spec fn joined_path(path: Seq<Seq<char>>) -> Seq<u8>
    decreases path.len(),
{
    if path.len() == 0 {
        seq![]
    } else if path.len() == 1 {
        encode_utf8(path[0])
    } else {
        joined_path(path.drop_last()) + seq![47u8] + encode_utf8(path.last())
    }
}

/// The bytes of the temporary path of a file: `downloads/`, its path,
/// `.temp`.
pub open spec fn temp_path(path: Seq<u8>) -> Seq<u8> {
    encode_utf8("downloads/"@) + path + encode_utf8(".temp"@)
}

/// The length and the temporary path of each file of a torrent.
pub open spec fn file_infos(info: InfoModel) -> Seq<(u64, Seq<u8>)> {
    match info {
        InfoModel::Single(s) => seq![(s.length, temp_path(encode_utf8(s.name)))],
        InfoModel::Multi(m) => Seq::new(
            m.files.len(),
            |i: int| (m.files[i].length, temp_path(joined_path(m.files[i].path))),
        ),
    }
}

/// Appends the UTF-8 bytes of a string.
pub(crate) fn push_text(out: &mut Vec<u8>, s: &str)
    requires
        valid_utf8(old(out)@),
    ensures
        final(out)@ == old(out)@ + encode_utf8(s@),
        valid_utf8(final(out)@),
{
    let b = str_bytes(s);
    let mut i: usize = 0;
    let ghost start = out@;
    while i < b.len()
        invariant
            i <= b@.len(),
            out@ == start + b@.take(i as int),
        decreases b@.len() - i,
    {
        out.push(b[i]);
        assert(out@ =~= start + b@.take(i + 1));
        i = i + 1;
    }
    assert(b@.take(b@.len() as int) =~= b@);
    proof {
        encode_utf8_valid_utf8(s@);
        valid_utf8_concat(start, encode_utf8(s@));
    }
}

/// The string that valid UTF-8 bytes encode.
pub(crate) fn text_string(bytes: Vec<u8>) -> (r: String)
    requires
        valid_utf8(bytes@),
    ensures
        encode_utf8(r@) == bytes@,
{
    proof {
        decode_utf8_encode_utf8(bytes@);
    }
    match string_from_utf8(bytes) {
        Ok(s) => s,
        Err(_) => {
            assert(false);
            String::new()
        },
    }
}

/// The temporary path of a file.
fn temp_path_string(path: &Vec<u8>) -> (r: String)
    requires
        valid_utf8(path@),
    ensures
        encode_utf8(r@) == temp_path(path@),
{
    let mut out: Vec<u8> = Vec::new();
    assert(valid_utf8(out@)) by {
        assert(out@.len() == 0);
    }
    push_text(&mut out, "downloads/");
    let ghost mid = out@;
    let mut i: usize = 0;
    while i < path.len()
        invariant
            i <= path@.len(),
            out@ == mid + path@.take(i as int),
        decreases path@.len() - i,
    {
        out.push(path[i]);
        assert(out@ =~= mid + path@.take(i + 1));
        i = i + 1;
    }
    assert(path@.take(path@.len() as int) =~= path@);
    proof {
        valid_utf8_concat(mid, path@);
    }
    push_text(&mut out, ".temp");
    assert(out@ =~= temp_path(path@));
    text_string(out)
}

/// The bytes of a path: its parts joined by `/`.
fn join_path(path: &Vec<String>) -> (r: Vec<u8>)
    ensures
        r@ == joined_path(path.deep_view()),
        valid_utf8(r@),
{
    let mut out: Vec<u8> = Vec::new();
    let mut i: usize = 0;
    assert(valid_utf8(out@)) by {
        assert(out@.len() == 0);
    }
    assert(path.deep_view().take(0) =~= Seq::<Seq<char>>::empty());
    while i < path.len()
        invariant
            i <= path@.len(),
            out@ == joined_path(path.deep_view().take(i as int)),
            valid_utf8(out@),
        decreases path@.len() - i,
    {
        if i > 0 {
            let ghost before = out@;
            out.push(47);
            proof {
                assert(valid_utf8(seq![47u8])) by {
                    crate::bencode::hash::lemma_ascii_valid(seq![47u8]);
                }
                valid_utf8_concat(before, seq![47u8]);
                assert(out@ =~= before + seq![47u8]);
            }
        }
        push_text(&mut out, path[i].as_str());
        assert(path.deep_view().take(i + 1).drop_last() =~= path.deep_view().take(i as int));
        assert(path.deep_view()[i as int] == path@[i as int]@);
        i = i + 1;
    }
    assert(path.deep_view().take(path@.len() as int) =~= path.deep_view());
    out
}

/// The length and the temporary path, under `downloads/`, of each file of a
/// torrent.
pub fn create_file_infos(info: &Info) -> (r: Vec<(u64, String)>)
    ensures
        r@.len() == file_infos(info.deep_view()).len(),
        forall|i: int|
            0 <= i < r@.len() ==> (#[trigger] r@[i]).0 == file_infos(info.deep_view())[i].0
                && encode_utf8(r@[i].1@) == file_infos(info.deep_view())[i].1,
{
    let mut out: Vec<(u64, String)> = Vec::new();
    match info {
        Info::Single(s) => {
            let mut name: Vec<u8> = Vec::new();
            assert(valid_utf8(name@)) by {
                assert(name@.len() == 0);
            }
            push_text(&mut name, s.name.as_str());
            assert(name@ =~= encode_utf8(s.name@));
            out.push((s.length, temp_path_string(&name)));
        },
        Info::Multi(m) => {
            let mut i: usize = 0;
            while i < m.files.len()
                invariant
                    i <= m.files@.len(),
                    info.deep_view() == InfoModel::Multi(m.deep_view()),
                    out@.len() == i,
                    forall|k: int|
                        0 <= k < i ==> (#[trigger] out@[k]).0 == m.files@[k].length
                            && encode_utf8(out@[k].1@) == temp_path(
                            joined_path(m.files@[k].path.deep_view()),
                        ),
                decreases m.files@.len() - i,
            {
                let path = join_path(&m.files[i].path);
                out.push((m.files[i].length, temp_path_string(&path)));
                i = i + 1;
            }
            proof {
                assert forall|k: int| 0 <= k < out@.len() implies (
                #[trigger] out@[k]).0 == file_infos(info.deep_view())[k].0 && encode_utf8(
                    out@[k].1@,
                ) == file_infos(info.deep_view())[k].1 by {
                    assert(m.deep_view().files[k] == m.files@[k].deep_view());
                }
            }
        },
    }
    out
}

/// The length of piece `i` of `n` pieces of `piece_length` bytes, over
/// `total` bytes: the last holds the rest.
pub open spec fn piece_length_at(total: int, piece_length: int, n: int, i: int) -> int {
    if i < n - 1 {
        piece_length
    } else {
        total - i * piece_length
    }
}

/// Whether the pieces fit the files: the last piece starts before the end
/// and is no longer than the others.
pub open spec fn pieces_fit(total: int, piece_length: int, n: int) -> bool {
    n > 0 ==> (total > (n - 1) * piece_length && piece_length >= total - (n - 1) * piece_length)
}

/// The pieces of a torrent whose files hold `files_length` bytes, all
/// missing.
pub fn create_pieces(files_length: u64, meta_info: &TorrentMetaInfo) -> (r: Vec<Piece>)
    requires
        pieces_fit(
            files_length as int,
            info_piece_length(meta_info.info.deep_view()) as int,
            info_pieces(meta_info.info.deep_view()).len() as int,
        ),
        info_pieces(meta_info.info.deep_view()).len() * info_piece_length(
            meta_info.info.deep_view(),
        ) <= u64::MAX,
    ensures
        r@.len() == info_pieces(meta_info.info.deep_view()).len(),
        forall|i: int|
            0 <= i < r@.len() ==> {
                let pl = info_piece_length(meta_info.info.deep_view()) as int;
                let n = r@.len() as int;
                &&& (#[trigger] r@[i]).offset == i * pl
                &&& r@[i].length == piece_length_at(files_length as int, pl, n, i) as u32
                &&& r@[i].hash@ == info_pieces(meta_info.info.deep_view())[i]
                &&& !r@[i].is_complete
                &&& r@[i].blocks@.len() == num_blocks(r@[i].length)
                &&& forall|k: int|
                    0 <= k < r@[i].blocks@.len() ==> #[trigger] r@[i].blocks@[k] == (Block {
                        index: k as u32,
                        length: block_length(r@[i].length, k) as u32,
                        is_complete: false,
                    })
            },
{
    let piece_length = meta_info.piece_length();
    let num_pieces = meta_info.num_pieces();
    let shas = meta_info.pieces();
    let mut pieces: Vec<Piece> = Vec::new();
    let mut i: usize = 0;
    while i < num_pieces
        invariant
            piece_length == info_piece_length(meta_info.info.deep_view()),
            num_pieces == info_pieces(meta_info.info.deep_view()).len(),
            shas.deep_view() == info_pieces(meta_info.info.deep_view()),
            pieces_fit(files_length as int, piece_length as int, num_pieces as int),
            num_pieces * piece_length <= u64::MAX,
            i <= num_pieces,
            pieces@.len() == i,
            forall|j: int|
                0 <= j < i ==> {
                    &&& (#[trigger] pieces@[j]).offset == j * piece_length
                    &&& pieces@[j].length == piece_length_at(
                        files_length as int,
                        piece_length as int,
                        num_pieces as int,
                        j,
                    ) as u32
                    &&& pieces@[j].hash@ == shas.deep_view()[j]
                    &&& !pieces@[j].is_complete
                    &&& pieces@[j].blocks@.len() == num_blocks(pieces@[j].length)
                    &&& forall|k: int|
                        0 <= k < pieces@[j].blocks@.len() ==> #[trigger] pieces@[j].blocks@[k] == (
                        Block {
                            index: k as u32,
                            length: block_length(pieces@[j].length, k) as u32,
                            is_complete: false,
                        })
                },
        decreases num_pieces - i,
    {
        assert(i * piece_length <= num_pieces * piece_length) by (nonlinear_arith)
            requires
                i <= num_pieces,
        ;
        let offset = i as u64 * piece_length as u64;
        let length = if i < num_pieces - 1 {
            piece_length
        } else {
            (files_length - offset) as usize
        };
        assert(shas.deep_view()[i as int] == shas@[i as int]@);
        let piece = Piece::new(length as u32, offset, shas[i]);
        pieces.push(piece);
        i = i + 1;
    }
    pieces
}

// ----- the state of a download -----

/// The missing blocks, as (index, length).
pub open spec fn missing_blocks(blocks: Seq<Block>) -> Seq<(u32, u32)>
    decreases blocks.len(),
{
    if blocks.len() == 0 {
        seq![]
    } else if blocks.last().is_complete {
        missing_blocks(blocks.drop_last())
    } else {
        missing_blocks(blocks.drop_last()).push((blocks.last().index, blocks.last().length))
    }
}

/// Whether every piece is complete.
pub open spec fn all_complete(pieces: Seq<Piece>) -> bool {
    forall|i: int| 0 <= i < pieces.len() ==> (#[trigger] pieces[i]).is_complete
}

/// Whether two hashes are the same.
fn same_hash(a: &Sha1, b: &Sha1) -> (r: bool)
    ensures
        r == (a@ == b@),
{
    let mut i: usize = 0;
    while i < 20
        invariant
            i <= 20,
            a@.len() == 20,
            b@.len() == 20,
            forall|k: int| 0 <= k < i ==> a@[k] == b@[k],
        decreases 20 - i,
    {
        if a.0[i] != b.0[i] {
            return false;
        }
        i = i + 1;
    }
    assert(a@ =~= b@);
    true
}

/// The pieces of a download and where its files start.
pub struct Download {
    our_peer_id: String,
    meta_info: TorrentMetaInfo,
    pieces: Vec<Piece>,
    file_offsets: Vec<u64>,
    file_infos: Vec<(u64, String)>,
}

/// Why the files and pieces of a torrent cannot be laid out.
#[derive(Debug, Clone, Copy, PartialEq, Eq)]
pub enum LayoutError {
    /// The files hold more bytes than a `u64` counts.
    FilesTooLong,
    /// The pieces do not cover the files: the last piece would start at or
    /// after their end, or be longer than a piece, or the pieces would
    /// reach past what a `u64` counts.
    PiecesDoNotFit,
}

/// Whether the pieces of `info` fit files of `total` bytes.
pub open spec fn layout_fits(info: InfoModel, total: int) -> bool {
    &&& pieces_fit(total, info_piece_length(info) as int, info_pieces(info).len() as int)
    &&& info_pieces(info).len() * info_piece_length(info) <= u64::MAX
}

/// Where a block starts in the torrent.
pub open spec fn block_offset(pieces: Seq<Piece>, piece_index: int, block_index: int) -> int {
    pieces[piece_index].offset + block_index * BLOCK_SIZE
}

impl Download {
    #[verifier::type_invariant]
    closed spec fn wf(&self) -> bool {
        offsets_sorted(self.file_offsets@) && self.file_offsets@[0] == 0
    }

    /// The pieces.
    pub closed spec fn pieces_view(&self) -> Seq<Piece> {
        self.pieces@
    }

    /// Where each file starts, then where the last one ends.
    pub closed spec fn offsets_view(&self) -> Seq<u64> {
        self.file_offsets@
    }

    /// Our peer id.
    pub closed spec fn peer_id_view(&self) -> Seq<char> {
        self.our_peer_id@
    }

    /// The model of the metainfo.
    pub closed spec fn meta_view(&self) -> crate::base::meta_info::MetaInfoModel {
        self.meta_info.deep_view()
    }

    /// The files: the length and temporary path of each.
    pub closed spec fn files_view(&self) -> Seq<(u64, String)> {
        self.file_infos@
    }

    /// The download of a torrent, with nothing stored yet: its files laid
    /// out one after the other from offset zero, under `downloads/`, and
    /// its pieces over them as `create_pieces` makes them.  Fails when the
    /// files are too long for a `u64`, or when the pieces do not fit them.
    pub fn new(our_peer_id: String, meta_info: TorrentMetaInfo) -> (r: Result<Download, LayoutError>)
        ensures
            ({
                let info = meta_info.info.deep_view();
                let infos = file_infos(info);
                let total = lengths_sum(infos, infos.len() as int);
                match r {
                    Err(e) => (e == LayoutError::FilesTooLong && total > u64::MAX) || (e
                        == LayoutError::PiecesDoNotFit && total <= u64::MAX && !layout_fits(
                        info,
                        total,
                    )),
                    Ok(d) => {
                        &&& total <= u64::MAX
                        &&& layout_fits(info, total)
                        &&& d.peer_id_view() == our_peer_id@
                        &&& d.meta_view() == meta_info.deep_view()
                        &&& d.files_view().len() == infos.len()
                        &&& forall|i: int|
                            0 <= i < infos.len() ==> (#[trigger] d.files_view()[i]).0 == infos[i].0
                                && encode_utf8(d.files_view()[i].1@) == infos[i].1
                        &&& d.offsets_view().len() == infos.len() + 1
                        &&& forall|i: int|
                            0 <= i < d.offsets_view().len() ==> #[trigger] d.offsets_view()[i]
                                == lengths_sum(infos, i)
                        &&& d.pieces_view().len() == info_pieces(info).len()
                        &&& forall|i: int|
                            0 <= i < d.pieces_view().len() ==> {
                                let pl = info_piece_length(info) as int;
                                let n = info_pieces(info).len() as int;
                                &&& (#[trigger] d.pieces_view()[i]).offset == i * pl
                                &&& d.pieces_view()[i].length == piece_length_at(total, pl, n, i) as u32
                                &&& d.pieces_view()[i].hash@ == info_pieces(info)[i]
                                &&& !d.pieces_view()[i].is_complete
                                &&& d.pieces_view()[i].blocks@.len() == num_blocks(
                                    d.pieces_view()[i].length,
                                )
                                &&& forall|k: int|
                                    0 <= k < d.pieces_view()[i].blocks@.len()
                                        ==> #[trigger] d.pieces_view()[i].blocks@[k] == (Block {
                                        index: k as u32,
                                        length: block_length(d.pieces_view()[i].length, k) as u32,
                                        is_complete: false,
                                    })
                            }
                    },
                }
            }),
    {
        let ghost info = meta_info.info.deep_view();
        let infos = create_file_infos(&meta_info.info);
        proof {
            lemma_lengths_sum_same(infos@, file_infos(info), infos@.len() as int);
        }
        let ghost whole = lengths_sum(infos@, infos@.len() as int);
        assert(whole == lengths_sum(file_infos(info), file_infos(info).len() as int));
        let mut total: u64 = 0;
        let mut i: usize = 0;
        while i < infos.len()
            invariant
                i <= infos@.len(),
                total == lengths_sum(infos@, i as int),
                whole == lengths_sum(infos@, infos@.len() as int),
                whole == lengths_sum(file_infos(info), file_infos(info).len() as int),
                info == meta_info.info.deep_view(),
            decreases infos@.len() - i,
        {
            match total.checked_add(infos[i].0) {
                Some(t) => {
                    total = t;
                },
                None => {
                    proof {
                        lemma_lengths_sum_mono(infos@, i + 1, infos@.len() as int);
                    }
                    return Err(LayoutError::FilesTooLong);
                },
            }
            i = i + 1;
        }
        assert(total == whole);
        let pl = meta_info.piece_length();
        let n = meta_info.num_pieces();
        assert((n as int) * (pl as int) <= u128::MAX) by (nonlinear_arith)
            requires
                n <= u64::MAX,
                pl <= u64::MAX,
        ;
        let all: u128 = n as u128 * pl as u128;
        if all > u64::MAX as u128 {
            return Err(LayoutError::PiecesDoNotFit);
        }
        if n > 0 {
            assert(((n - 1) as int) * (pl as int) <= (n as int) * (pl as int)) by (nonlinear_arith)
                requires
                    n > 0,
            ;
            let last: u128 = (n - 1) as u128 * pl as u128;
            if !(total as u128 > last && pl as u128 >= total as u128 - last) {
                return Err(LayoutError::PiecesDoNotFit);
            }
        }
        let file_offsets = create_file_offsets(&infos);
        assert forall|k: int| 0 <= k < file_offsets@.len() implies #[trigger] file_offsets@[k]
            == lengths_sum(file_infos(info), k) by {
            lemma_lengths_sum_same(infos@, file_infos(info), k);
        }
        let pieces = create_pieces(total, &meta_info);
        assert(total == lengths_sum(file_infos(info), file_infos(info).len() as int));
        assert forall|k: int| 0 <= k < pieces@.len() implies (#[trigger] pieces@[k]).length
            == piece_length_at(
            lengths_sum(file_infos(info), file_infos(info).len() as int),
            info_piece_length(info) as int,
            info_pieces(info).len() as int,
            k,
        ) as u32 by {
            assert(pieces@[k].length == piece_length_at(
                total as int,
                info_piece_length(info) as int,
                pieces@.len() as int,
                k,
            ) as u32);
        }
        let ghost mv = meta_info.deep_view();
        let d = Download { our_peer_id, meta_info, pieces, file_offsets, file_infos: infos };
        assert(d.pieces_view() =~= pieces@);
        assert(d.meta_view() == mv);
        Ok(d)
    }

    /// Where each file starts, then where the last one ends.
    pub fn file_offsets(&self) -> (r: &Vec<u64>)
        ensures
            r@ == self.offsets_view(),
    {
        &self.file_offsets
    }

    /// The files: the length and temporary path of each.
    pub fn file_infos(&self) -> (r: &Vec<(u64, String)>)
        ensures
            r@ == self.files_view(),
    {
        &self.file_infos
    }

    /// Our peer id.
    pub fn our_peer_id(&self) -> (r: &String)
        ensures
            r@ == self.peer_id_view(),
    {
        &self.our_peer_id
    }

    /// The metainfo of the torrent.
    pub fn meta_info(&self) -> (r: &TorrentMetaInfo)
        ensures
            r.deep_view() == self.meta_view(),
    {
        &self.meta_info
    }

    /// Whether a block of `len` bytes can be stored: the piece and the block
    /// exist, and the bytes lie within the files.
    pub open spec fn block_fits_spec(&self, piece_index: u32, block_index: u32, len: usize) -> bool {
        let p = self.pieces_view();
        let fo = self.offsets_view();
        &&& piece_index < p.len()
        &&& block_index < p[piece_index as int].blocks@.len()
        &&& block_index * BLOCK_SIZE <= u32::MAX
        &&& block_offset(p, piece_index as int, block_index as int) < fo.last()
        &&& block_offset(p, piece_index as int, block_index as int) + len <= fo.last()
    }

    /// Tells whether a block of `len` bytes can be stored.
    pub fn block_fits(&self, piece_index: u32, block_index: u32, len: usize) -> (r: bool)
        ensures
            r == self.block_fits_spec(piece_index, block_index, len),
    {
        proof {
            use_type_invariant(self);
        }
        if piece_index as usize >= self.pieces.len() {
            return false;
        }
        let piece = &self.pieces[piece_index as usize];
        if block_index as usize >= piece.blocks.len() || block_index > 262143 {
            return false;
        }
        let last = self.file_offsets[self.file_offsets.len() - 1];
        let start = (block_index * BLOCK_SIZE) as u64;
        if piece.offset > last || start > last - piece.offset {
            return false;
        }
        let offset = piece.offset + start;
        offset < last && len as u64 <= last - offset
    }

    /// Where to write a block: `None` when the block or its piece is already
    /// stored; otherwise the first file and the parts of the block per file.
    pub fn begin_store(&self, piece_index: u32, block_index: u32, len: usize) -> (r: Option<
        (usize, Vec<(usize, u64, usize)>),
    >)
        requires
            self.block_fits_spec(piece_index, block_index, len),
        ensures
            ({
                let piece = self.pieces_view()[piece_index as int];
                match r {
                    None => piece.blocks@[block_index as int].is_complete || piece.is_complete,
                    Some((index, ptrs)) => !piece.blocks@[block_index as int].is_complete
                        && !piece.is_complete && holds_offset(
                        self.offsets_view(),
                        block_offset(self.pieces_view(), piece_index as int, block_index as int),
                        index as int,
                    ) && segments_of(
                        self.offsets_view(),
                        block_offset(self.pieces_view(), piece_index as int, block_index as int),
                        len as int,
                        index as int,
                        ptrs@,
                    ),
                }
            }),
    {
        proof {
            use_type_invariant(self);
        }
        let piece = &self.pieces[piece_index as usize];
        if piece.has_block(block_index) || piece.is_complete {
            return None;
        }
        let block_offset = piece.offset + (block_index * BLOCK_SIZE) as u64;
        Some(search_ptrs(self.file_offsets.as_slice(), block_offset, len))
    }

    /// Marks a block stored; says whether the piece now has every block.
    pub fn block_stored(&mut self, piece_index: u32, block_index: u32) -> (r: bool)
        requires
            piece_index < old(self).pieces_view().len(),
            block_index < old(self).pieces_view()[piece_index as int].blocks@.len(),
        ensures
            final(self).offsets_view() == old(self).offsets_view(),
            final(self).meta_view() == old(self).meta_view(),
            final(self).pieces_view().len() == old(self).pieces_view().len(),
            forall|i: int|
                0 <= i < final(self).pieces_view().len() && i != piece_index ==> #[trigger] final(self).pieces_view()[i]
                    == old(self).pieces_view()[i],
            ({
                let before = old(self).pieces_view()[piece_index as int];
                let after = final(self).pieces_view()[piece_index as int];
                &&& after.length == before.length
                &&& after.offset == before.offset
                &&& after.hash == before.hash
                &&& after.is_complete == before.is_complete
                &&& after.blocks@ == before.blocks@.update(
                    block_index as int,
                    Block { is_complete: true, ..before.blocks@[block_index as int] },
                )
                &&& r == all_blocks(after.blocks@)
            }),
    {
        proof {
            use_type_invariant(&*self);
        }
        let mut pieces: Vec<Piece> = Vec::new();
        std::mem::swap(&mut pieces, &mut self.pieces);
        let ghost before = pieces@;
        let mut piece = pieces.remove(piece_index as usize);
        let b = piece.blocks[block_index as usize];
        piece.blocks.set(block_index as usize, Block { is_complete: true, ..b });
        let all = piece.has_all_blocks();
        pieces.insert(piece_index as usize, piece);
        assert(pieces@ =~= before.update(piece_index as int, pieces@[piece_index as int]));
        self.pieces = pieces;
        all
    }

    /// Marks a block written; when its piece now has every block, says
    /// where the piece lies, so that it can be read back and checked.
    pub fn block_written(&mut self, piece_index: u32, block_index: u32) -> (r: Option<(u64, u32)>)
        requires
            piece_index < old(self).pieces_view().len(),
            block_index < old(self).pieces_view()[piece_index as int].blocks@.len(),
        ensures
            final(self).offsets_view() == old(self).offsets_view(),
            final(self).meta_view() == old(self).meta_view(),
            final(self).pieces_view().len() == old(self).pieces_view().len(),
            forall|i: int|
                0 <= i < final(self).pieces_view().len() && i != piece_index ==> #[trigger] final(self).pieces_view()[i]
                    == old(self).pieces_view()[i],
            ({
                let before = old(self).pieces_view()[piece_index as int];
                let after = final(self).pieces_view()[piece_index as int];
                &&& after.length == before.length
                &&& after.offset == before.offset
                &&& after.hash == before.hash
                &&& after.is_complete == before.is_complete
                &&& after.blocks@ == before.blocks@.update(
                    block_index as int,
                    Block { is_complete: true, ..before.blocks@[block_index as int] },
                )
                &&& r == (if all_blocks(after.blocks@) {
                    Some((after.offset, after.length))
                } else {
                    None::<(u64, u32)>
                })
            }),
    {
        if self.block_stored(piece_index, block_index) {
            Some(self.piece_span(piece_index))
        } else {
            None
        }
    }

    /// The files that a piece finishes, as `finished_files` names them.
    pub open spec fn finished_of(&self, piece_index: u32, piece_len: usize, r: Seq<usize>) -> bool {
        let piece = self.pieces_view()[piece_index as int];
        exists|index: int, segs: Seq<(usize, u64, usize)>|
            holds_offset(self.offsets_view(), piece.offset as int, index) && segments_of(
                self.offsets_view(),
                piece.offset as int,
                piece.length as int,
                index,
                segs,
            ) && r == Seq::new(segs.len(), |k: int| (index + k) as usize).filter(
                |f: usize| self.file_complete(f as int, piece_len as int),
            )
    }

    /// What to tell the peers once a block is stored, as `store_events`
    /// says.
    pub open spec fn events_of(&self, piece_index: u32, block_index: u32, r: Seq<Ipc>) -> bool {
        let piece_done = self.pieces_view()[piece_index as int].is_complete;
        let all_done = all_complete(self.pieces_view());
        &&& r.len() == 1 + (if piece_done { 1int } else { 0 }) + (if all_done { 1int } else { 0 })
        &&& r[0] == Ipc::BlockComplete(piece_index, block_index)
        &&& piece_done ==> r[1] == Ipc::PieceComplete(piece_index)
        &&& all_done ==> r[r.len() - 1] == Ipc::DownloadComplete
    }

    /// Checks a piece whose blocks are all written, given its bytes, as
    /// `verify_piece` does; when it is valid, names the files that it
    /// finishes (none when the files reach past the last piece, or the
    /// piece past the files); then says what to tell the peers about the
    /// block that completed it.
    pub fn piece_read(&mut self, piece_index: u32, block_index: u32, data: &[u8]) -> (r: (
        Vec<usize>,
        Vec<Ipc>,
    ))
        requires
            piece_index < old(self).pieces_view().len(),
            data@.len() * 8 <= u64::MAX,
        ensures
            final(self).offsets_view() == old(self).offsets_view(),
            final(self).meta_view() == old(self).meta_view(),
            final(self).pieces_view().len() == old(self).pieces_view().len(),
            forall|i: int|
                0 <= i < final(self).pieces_view().len() && i != piece_index ==> #[trigger] final(self).pieces_view()[i]
                    == old(self).pieces_view()[i],
            ({
                let valid = old(self).pieces_view()[piece_index as int].hash@ == sha1_digest(data@);
                let before = old(self).pieces_view()[piece_index as int];
                let after = final(self).pieces_view()[piece_index as int];
                let pl = info_piece_length(final(self).meta_view().info);
                let last = final(self).offsets_view().last();
                &&& after.length == before.length
                &&& after.offset == before.offset
                &&& after.hash == before.hash
                &&& after.is_complete == valid
                &&& after.blocks@.len() == before.blocks@.len()
                &&& forall|k: int|
                    0 <= k < after.blocks@.len() ==> #[trigger] after.blocks@[k] == (if valid {
                        before.blocks@[k]
                    } else {
                        Block { is_complete: false, ..before.blocks@[k] }
                    })
                &&& if valid && final(self).file_spans_fit(pl) && after.offset < last && after.offset
                    + after.length <= last {
                    final(self).finished_of(piece_index, pl, r.0@)
                } else {
                    r.0@ == Seq::<usize>::empty()
                }
                &&& final(self).events_of(piece_index, block_index, r.1@)
            }),
    {
        proof {
            use_type_invariant(&*self);
        }
        let valid = self.verify_piece(piece_index, data);
        let mut files: Vec<usize> = Vec::new();
        if valid {
            let pl = self.meta_info.piece_length();
            let (offset, length) = self.piece_span(piece_index);
            let last = self.file_offsets[self.file_offsets.len() - 1];
            if self.files_fit(pl) && offset < last && length as u64 <= last - offset {
                files = self.finished_files(piece_index, pl);
            }
        }
        let events = self.store_events(piece_index, block_index);
        (files, events)
    }

    /// Where a piece starts in the torrent, and its length.
    pub fn piece_span(&self, piece_index: u32) -> (r: (u64, u32))
        requires
            piece_index < self.pieces_view().len(),
        ensures
            r.0 == self.pieces_view()[piece_index as int].offset,
            r.1 == self.pieces_view()[piece_index as int].length,
    {
        let piece = &self.pieces[piece_index as usize];
        (piece.offset, piece.length)
    }

    /// Checks a piece against its hash: the piece is complete when the hash
    /// of its bytes matches, and has all its blocks missing again when not.
    pub fn verify_piece(&mut self, piece_index: u32, data: &[u8]) -> (r: bool)
        requires
            piece_index < old(self).pieces_view().len(),
            data@.len() * 8 <= u64::MAX,
        ensures
            r == (old(self).pieces_view()[piece_index as int].hash@ == sha1_digest(data@)),
            final(self).offsets_view() == old(self).offsets_view(),
            final(self).meta_view() == old(self).meta_view(),
            final(self).pieces_view().len() == old(self).pieces_view().len(),
            forall|i: int|
                0 <= i < final(self).pieces_view().len() && i != piece_index ==> #[trigger] final(self).pieces_view()[i]
                    == old(self).pieces_view()[i],
            ({
                let before = old(self).pieces_view()[piece_index as int];
                let after = final(self).pieces_view()[piece_index as int];
                &&& after.length == before.length
                &&& after.offset == before.offset
                &&& after.hash == before.hash
                &&& after.is_complete == r
                &&& after.blocks@.len() == before.blocks@.len()
                &&& forall|k: int|
                    0 <= k < after.blocks@.len() ==> #[trigger] after.blocks@[k] == (if r {
                        before.blocks@[k]
                    } else {
                        Block { is_complete: false, ..before.blocks@[k] }
                    })
            }),
    {
        proof {
            use_type_invariant(&*self);
        }
        let digest = Sha1::calculate_sha1(data);
        let mut pieces: Vec<Piece> = Vec::new();
        std::mem::swap(&mut pieces, &mut self.pieces);
        let ghost before = pieces@;
        let mut piece = pieces.remove(piece_index as usize);
        let valid = same_hash(&piece.hash, &digest);
        piece.is_complete = valid;
        if !valid {
            piece.reset_blocks();
        }
        pieces.insert(piece_index as usize, piece);
        assert(pieces@ =~= before.update(piece_index as int, pieces@[piece_index as int]));
        self.pieces = pieces;
        valid
    }

    /// Whether every piece is complete.
    pub fn is_complete(&self) -> (r: bool)
        ensures
            r == all_complete(self.pieces_view()),
    {
        let mut i: usize = 0;
        while i < self.pieces.len()
            invariant
                i <= self.pieces@.len(),
                forall|k: int| 0 <= k < i ==> (#[trigger] self.pieces@[k]).is_complete,
            decreases self.pieces@.len() - i,
        {
            if !self.pieces[i].is_complete {
                return false;
            }
            i = i + 1;
        }
        true
    }

    /// Which pieces are complete.
    pub fn have_pieces(&self) -> (r: Vec<bool>)
        ensures
            r@.len() == self.pieces_view().len(),
            forall|i: int| 0 <= i < r@.len() ==> #[trigger] r@[i] == self.pieces_view()[i].is_complete,
    {
        let mut res: Vec<bool> = Vec::new();
        let mut i: usize = 0;
        while i < self.pieces.len()
            invariant
                i <= self.pieces@.len(),
                res@.len() == i,
                forall|k: int| 0 <= k < i ==> #[trigger] res@[k] == self.pieces@[k].is_complete,
            decreases self.pieces@.len() - i,
        {
            res.push(self.pieces[i].is_complete);
            i = i + 1;
        }
        res
    }

    /// The missing blocks of a piece, as (index, length); none when the piece
    /// is complete.
    pub fn incomplete_blocks_for_piece(&self, piece_index: u32) -> (r: Vec<(u32, u32)>)
        requires
            piece_index < self.pieces_view().len(),
        ensures
            r@ == (if self.pieces_view()[piece_index as int].is_complete {
                Seq::<(u32, u32)>::empty()
            } else {
                missing_blocks(self.pieces_view()[piece_index as int].blocks@)
            }),
    {
        let piece = &self.pieces[piece_index as usize];
        let mut res: Vec<(u32, u32)> = Vec::new();
        if !piece.is_complete {
            let mut i: usize = 0;
            assert(piece.blocks@.take(0) =~= Seq::<Block>::empty());
            while i < piece.blocks.len()
                invariant
                    i <= piece.blocks@.len(),
                    res@ == missing_blocks(piece.blocks@.take(i as int)),
                decreases piece.blocks@.len() - i,
            {
                let b = piece.blocks[i];
                if !b.is_complete {
                    res.push((b.index, b.length));
                }
                assert(piece.blocks@.take(i + 1).drop_last() =~= piece.blocks@.take(i as int));
                i = i + 1;
            }
            assert(piece.blocks@.take(i as int) =~= piece.blocks@);
        }
        res
    }

    /// What to tell the peers once a block is stored: the block is complete,
    /// then the piece if it is, then the download if it is.
    pub fn store_events(&self, piece_index: u32, block_index: u32) -> (r: Vec<Ipc>)
        requires
            piece_index < self.pieces_view().len(),
        ensures
            r@.len() >= 1,
            r@[0] == Ipc::BlockComplete(piece_index, block_index),
            ({
                let piece_done = self.pieces_view()[piece_index as int].is_complete;
                let all_done = all_complete(self.pieces_view());
                &&& r@.len() == 1 + (if piece_done { 1int } else { 0 }) + (if all_done { 1int } else { 0 })
                &&& piece_done ==> r@[1] == Ipc::PieceComplete(piece_index)
                &&& all_done ==> r@[r@.len() - 1] == Ipc::DownloadComplete
            }),
    {
        let mut events: Vec<Ipc> = Vec::new();
        events.push(Ipc::BlockComplete(piece_index, block_index));
        if self.pieces[piece_index as usize].is_complete {
            events.push(Ipc::PieceComplete(piece_index));
        }
        let done = self.is_complete();
        if done {
            assert(self.pieces@[piece_index as int].is_complete);
            events.push(Ipc::DownloadComplete);
        }
        events
    }

    /// Where to read the data of a request: `None` when its piece is not
    /// complete; otherwise where the data starts in the torrent.
    pub fn request_offset(&self, request: &RequestMetadata) -> (r: Option<u64>)
        requires
            request.piece_index < self.pieces_view().len(),
            self.pieces_view()[request.piece_index as int].offset + request.offset <= u64::MAX,
        ensures
            match r {
                None => !self.pieces_view()[request.piece_index as int].is_complete,
                Some(o) => self.pieces_view()[request.piece_index as int].is_complete && o
                    == self.pieces_view()[request.piece_index as int].offset + request.offset,
            },
    {
        let piece = &self.pieces[request.piece_index as usize];
        if piece.is_complete {
            Some(piece.offset + request.offset as u64)
        } else {
            None
        }
    }

    /// The pieces that a file spans, given the piece length: from the piece
    /// holding its first byte to the one holding its last.
    pub open spec fn file_spans_fit(&self, piece_len: usize) -> bool {
        let fo = self.offsets_view();
        &&& piece_len > 0
        &&& forall|i: int|
            1 <= i < fo.len() ==> #[trigger] fo[i] >= 1 && (fo[i] - 1) / (piece_len as int)
                < self.pieces_view().len()
    }

    /// Tells whether every file's last byte lies in a piece.
    pub fn files_fit(&self, piece_len: usize) -> (r: bool)
        ensures
            r == self.file_spans_fit(piece_len),
    {
        if piece_len == 0 {
            return false;
        }
        let mut i: usize = 1;
        while i < self.file_offsets.len()
            invariant
                1 <= i <= self.file_offsets@.len() || self.file_offsets@.len() == 0,
                piece_len > 0,
                forall|k: int|
                    1 <= k < i && k < self.file_offsets@.len() ==> #[trigger] self.file_offsets@[k]
                        >= 1 && (self.file_offsets@[k] - 1) / (piece_len as int)
                        < self.pieces@.len(),
            decreases self.file_offsets@.len() - i,
        {
            let o = self.file_offsets[i];
            if o < 1 || (o - 1) / (piece_len as u64) >= self.pieces.len() as u64 {
                assert(self.offsets_view()[i as int] == o);
                return false;
            }
            i = i + 1;
        }
        true
    }

    /// Whether the pieces from the one holding the first byte of file `i` to
    /// the one holding its last are all complete.
    pub open spec fn file_complete(&self, i: int, piece_len: int) -> bool {
        let fo = self.offsets_view();
        forall|p: int|
            (fo[i] as int) / piece_len <= p <= (fo[i + 1] - 1) / piece_len ==> (
            #[trigger] self.pieces_view()[p]).is_complete
    }

    /// The files that a piece reaches whose pieces are now all complete.
    pub fn finished_files(&self, piece_index: u32, piece_len: usize) -> (r: Vec<usize>)
        requires
            piece_index < self.pieces_view().len(),
            self.file_spans_fit(piece_len),
            self.pieces_view()[piece_index as int].offset < self.offsets_view().last(),
            self.pieces_view()[piece_index as int].offset + self.pieces_view()[piece_index as int].length
                <= self.offsets_view().last(),
        ensures
            ({
                let piece = self.pieces_view()[piece_index as int];
                exists|index: int, segs: Seq<(usize, u64, usize)>|
                    holds_offset(self.offsets_view(), piece.offset as int, index) && segments_of(
                        self.offsets_view(),
                        piece.offset as int,
                        piece.length as int,
                        index,
                        segs,
                    ) && r@ == Seq::new(segs.len(), |k: int| (index + k) as usize).filter(
                        |f: usize| self.file_complete(f as int, piece_len as int),
                    )
            }),
    {
        proof {
            use_type_invariant(self);
        }
        let piece = &self.pieces[piece_index as usize];
        let (index, v) = search_ptrs(self.file_offsets.as_slice(), piece.offset, piece.length as usize);
        let ghost files = Seq::new(v@.len(), |k: int| (index + k) as usize);
        let ghost pred = |f: usize| self.file_complete(f as int, piece_len as int);
        let mut res: Vec<usize> = Vec::new();
        let mut i: usize = 0;
        assert(files.take(0) =~= Seq::<usize>::empty());
        assert(files.take(0).filter(pred) =~= Seq::<usize>::empty());
        while i < v.len()
            invariant
                i <= v@.len(),
                index + v@.len() < self.file_offsets@.len(),
                self.file_offsets@.len() == self.file_offsets.len(),
                self.pieces@.len() == self.pieces.len(),
                self.file_spans_fit(piece_len),
                files == Seq::new(v@.len(), |k: int| (index + k) as usize),
                pred == (|f: usize| self.file_complete(f as int, piece_len as int)),
                res@ == files.take(i as int).filter(pred),
            decreases v@.len() - i,
        {
            let f = i + index;
            assert(self.offsets_view()[f + 1] >= 1);
            assert((self.offsets_view()[f + 1] - 1) / (piece_len as int) < self.pieces_view().len());
            let low: u64 = self.file_offsets[f] / (piece_len as u64);
            let high: u64 = (self.file_offsets[f + 1] - 1) / (piece_len as u64);
            let mut p: u64 = low;
            let mut complete = true;
            while p <= high
                invariant
                    low <= p,
                    high < self.pieces@.len(),
                    self.pieces@.len() == self.pieces.len(),
                    complete ==> forall|q: int| low <= q < p ==> (#[trigger] self.pieces@[q]).is_complete,
                    !complete ==> !self.file_complete(f as int, piece_len as int),
                    low == (self.file_offsets@[f as int] as int) / (piece_len as int),
                    high == (self.file_offsets@[f + 1] - 1) / (piece_len as int),
                ensures
                    complete ==> p > high,
                decreases high + 1 - p,
            {
                if !self.pieces[p as usize].is_complete {
                    assert(!self.pieces_view()[p as int].is_complete);
                    complete = false;
                    break;
                }
                p = p + 1;
            }
            proof {
                if complete {
                    assert forall|q: int|
                        (self.offsets_view()[f as int] as int) / (piece_len as int) <= q <= (
                        self.offsets_view()[f + 1] - 1) / (piece_len as int) implies (
                    #[trigger] self.pieces_view()[q]).is_complete by {
                        assert(self.pieces@[q].is_complete);
                    }
                }
            }
            assert(complete == self.file_complete(f as int, piece_len as int));
            if complete {
                res.push(f);
            }
            assert(files.take(i + 1).drop_last() =~= files.take(i as int));
            assert(files[i as int] == f);
            proof {
                files.take(i as int).lemma_filter_push(f, pred);
                assert(files.take(i as int).push(f) =~= files.take(i + 1));
            }
            i = i + 1;
        }
        assert(files.take(i as int) =~= files);
        res
    }
}

/// The sum of the first `n` file lengths.
pub open spec fn lengths_sum<S>(infos: Seq<(u64, S)>, n: int) -> int
    decreases n,
{
    if n <= 0 {
        0
    } else {
        lengths_sum(infos, n - 1) + infos[n - 1].0
    }
}

/// Where each file starts, the files laid out one after the other, then
/// where the last one ends.
pub fn create_file_offsets(file_infos: &Vec<(u64, String)>) -> (r: Vec<u64>)
    requires
        lengths_sum(file_infos@, file_infos@.len() as int) <= u64::MAX,
    ensures
        r@.len() == file_infos@.len() + 1,
        forall|i: int| 0 <= i < r@.len() ==> #[trigger] r@[i] == lengths_sum(file_infos@, i),
        offsets_sorted(r@),
{
    let mut offsets: Vec<u64> = Vec::new();
    let mut file_offset: u64 = 0;
    let mut i: usize = 0;
    while i < file_infos.len()
        invariant
            i <= file_infos@.len(),
            lengths_sum(file_infos@, file_infos@.len() as int) <= u64::MAX,
            offsets@.len() == i,
            file_offset == lengths_sum(file_infos@, i as int),
            forall|k: int| 0 <= k < i ==> #[trigger] offsets@[k] == lengths_sum(file_infos@, k),
        decreases file_infos@.len() - i,
    {
        proof {
            lemma_lengths_sum_mono(file_infos@, i + 1, file_infos@.len() as int);
        }
        offsets.push(file_offset);
        file_offset = file_offset + file_infos[i].0;
        i = i + 1;
    }
    offsets.push(file_offset);
    assert forall|a: int, b: int| 0 <= a <= b < offsets@.len() implies offsets@[a] <= offsets@[b] by {
        lemma_lengths_sum_mono(file_infos@, a, b);
    }
    offsets
}

proof fn lemma_lengths_sum_mono<S>(infos: Seq<(u64, S)>, a: int, b: int)
    requires
        0 <= a <= b,
    ensures
        lengths_sum(infos, a) <= lengths_sum(infos, b),
    decreases b - a,
{
    if a < b {
        lemma_lengths_sum_mono(infos, a, b - 1);
    }
}

/// Sums of lengths agree when the lengths agree.
proof fn lemma_lengths_sum_same<S, U>(a: Seq<(u64, S)>, b: Seq<(u64, U)>, n: int)
    requires
        n <= a.len(),
        n <= b.len(),
        forall|i: int| 0 <= i < n ==> (#[trigger] a[i]).0 == b[i].0,
    ensures
        lengths_sum(a, n) == lengths_sum(b, n),
    decreases n,
{
    if n > 0 {
        lemma_lengths_sum_same(a, b, n - 1);
    }
}

} // verus!
