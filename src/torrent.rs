//! The typed metadata tree and the figures derived from it.

use vstd::prelude::*;
use crate::bencode::{
    DecodeError, Value, bytes_text, cut_at, decode, enc, int_text, push_bytes_text, push_int_text,
};
use crate::digest::{
    hex_encode, hex_text, lemma_hex_text_len, md5_digest, md5_of, sha1_digest, sha1_of,
};
use crate::keys;

verus! {

/// A DHT bootstrap node: host and port.
#[derive(Debug)]
pub struct Node(pub Vec<u8>, pub i64);

/// One member of a multi-file torrent.
#[derive(Debug)]
pub struct File {
    /// The path segments of the file within the torrent.
    pub path: Vec<Vec<u8>>,
    /// The size of the file in bytes.
    pub length: i64,
    /// The MD5 checksum of the file, which some producers add.
    pub md5sum: Option<Vec<u8>>,
}

/// The hashed part of the metadata.
#[derive(Debug)]
pub struct Info {
    /// The name of the torrent, or of its top-level directory.
    pub name: Vec<u8>,
    /// The 20-byte SHA-1 digests of the pieces, one after the other.
    pub pieces: Vec<u8>,
    /// The size of each piece in bytes.
    pub piece_length: i64,
    pub md5sum: Option<Vec<u8>>,
    /// The size of the single file in bytes.
    pub length: Option<i64>,
    /// The files of a multi-file torrent.
    pub files: Option<Vec<File>>,
    pub private: Option<u8>,
    pub path: Option<Vec<Vec<u8>>>,
    pub root_hash: Option<Vec<u8>>,
    pub meta_version: Option<i64>,
}

/// A whole metadata file.
#[derive(Debug)]
pub struct Torrent {
    pub info: Info,
    pub announce: Option<Vec<u8>>,
    pub nodes: Option<Vec<Node>>,
    pub encoding: Option<Vec<u8>>,
    /// HTTP seed URLs for direct downloading.
    pub httpseeds: Option<Vec<Vec<u8>>>,
    /// Tiers of alternative tracker URLs.
    pub announce_list: Option<Vec<Vec<Vec<u8>>>>,
    pub creation_date: Option<i64>,
    pub comment: Option<Vec<u8>>,
    pub created_by: Option<Vec<u8>>,
}

/// The sum of the lengths of some files.
pub open spec fn sum_lengths(fs: Seq<File>) -> int
    decreases fs.len(),
{
    if fs.len() == 0 {
        0
    } else {
        sum_lengths(fs.drop_last()) + fs.last().length
    }
}

/// Every file length is a byte count, so not negative.
pub open spec fn lengths_valid(info: Info) -> bool {
    &&& info.length matches Some(n) ==> n >= 0
    &&& info.files matches Some(fs) ==> forall|i: int|
        0 <= i < fs@.len() ==> #[trigger] fs@[i].length >= 0
}

/// Total content size: the files' lengths if there is a file list, else the
/// single length, else zero.
pub open spec fn total_size_of(info: Info) -> int {
    match info.files {
        Some(fs) => sum_lengths(fs@),
        None => match info.length {
            Some(n) => n as int,
            None => 0,
        },
    }
}

/// The number of files: the file list's length, else one for a single
/// length, else zero.
pub open spec fn files_count_of(info: Info) -> int {
    match info.files {
        Some(fs) => fs@.len() as int,
        None => if info.length is Some {
            1
        } else {
            0
        },
    }
}

/// With an empty file list, or with neither a file list nor a length, the
/// total size is zero.
pub proof fn lemma_total_size_empty(info: Info)
    requires
        info.files matches Some(fs) ==> fs@.len() == 0,
        info.files is None ==> info.length is None,
    ensures
        total_size_of(info) == 0,
{
}

/// The total size of a file list grows by each file appended to it.
pub proof fn lemma_total_size_additive(info: Info, fs: Seq<File>, f: File)
    requires
        info.files matches Some(v) && v@ == fs.push(f),
    ensures
        total_size_of(info) == sum_lengths(fs) + f.length,
{
    assert(fs.push(f).drop_last() =~= fs);
}

/// The piece count is the number of whole 20-byte segments.
pub proof fn lemma_pieces_count_floor(k: nat, r: nat)
    requires
        r < 20,
    ensures
        (20 * k + r) / 20 == k,
{
    assert((20 * k + r) / 20 == k) by (nonlinear_arith)
        requires
            r < 20,
    ;
}

impl Torrent {
    /// Total content size in bytes, summed in 128 bits.
    pub fn total_size(&self) -> (r: u128)
        requires
            lengths_valid(self.info),
        ensures
            r as int == total_size_of(self.info),
    {
        match &self.info.files {
            Some(files) => {
                let mut acc: u128 = 0;
                let mut i: usize = 0;
                while i < files.len()
                    invariant
                        0 <= i <= files.len(),
                        self.info.files == Some(*files),
                        lengths_valid(self.info),
                        acc as int == sum_lengths(files@.subrange(0, i as int)),
                        acc as int <= i * 0x7fff_ffff_ffff_ffff,
                    decreases files.len() - i,
                {
                    let n = files[i].length;
                    assert(n >= 0);
                    assert(acc + n <= (i + 1) * 0x7fff_ffff_ffff_ffff);
                    assert((i + 1) * 0x7fff_ffff_ffff_ffff < u128::MAX) by (nonlinear_arith)
                        requires
                            i < usize::MAX,
                    ;
                    proof {
                        let t = files@.subrange(0, i + 1);
                        assert(t.drop_last() =~= files@.subrange(0, i as int));
                    }
                    acc = acc + n as u128;
                    i = i + 1;
                }
                assert(files@.subrange(0, files.len() as int) =~= files@);
                acc
            },
            None => match self.info.length {
                Some(n) => n as u128,
                None => 0,
            },
        }
    }

    /// The number of files the torrent describes.
    pub fn files_count(&self) -> (r: usize)
        ensures
            r as int == files_count_of(self.info),
    {
        match &self.info.files {
            Some(files) => files.len(),
            None => if self.info.length.is_some() {
                1
            } else {
                0
            },
        }
    }

    /// The number of whole 20-byte piece digests; trailing bytes are ignored.
    pub fn pieces_count(&self) -> (r: usize)
        ensures
            r as int == self.info.pieces@.len() / 20,
    {
        self.info.pieces.len() / 20
    }

    /// True exactly when the info holds a file list, that is in multi-file
    /// mode (the name is kept for existing callers).
    pub fn is_single(&self) -> (r: bool)
        ensures
            r == self.info.files is Some,
    {
        self.info.files.is_some()
    }
}


/// The value stored under the first entry with key `k`, from index `i` on.
pub open spec fn lookup_from(d: Seq<(Vec<u8>, Value)>, k: Seq<u8>, i: int) -> Option<Value>
    decreases d.len() - i,
{
    if i < 0 || i >= d.len() {
        None
    } else if d[i].0@ == k {
        Some(d[i].1)
    } else {
        lookup_from(d, k, i + 1)
    }
}

/// The value of the first entry with key `k`.
pub open spec fn lookup(d: Seq<(Vec<u8>, Value)>, k: Seq<u8>) -> Option<Value> {
    lookup_from(d, k, 0)
}

/// An optional byte-string field read from an optional value.
pub open spec fn text_field(e: Option<Value>, f: Option<Vec<u8>>) -> bool {
    match e {
        None => f is None,
        Some(v) => v is Bytes && f is Some && f->0@ == v->Bytes_0@,
    }
}

/// An optional integer field read from an optional value.
pub open spec fn int_field(e: Option<Value>, f: Option<i64>) -> bool {
    match e {
        None => f is None,
        Some(v) => v is Int && f == Some(v->Int_0),
    }
}

/// An optional flag that fits a byte.
pub open spec fn flag_field(e: Option<Value>, f: Option<u8>) -> bool {
    match e {
        None => f is None,
        Some(v) => v is Int && 0 <= v->Int_0 <= 255 && f == Some(v->Int_0 as u8),
    }
}

/// A list of byte strings, element for element.
pub open spec fn text_list(l: Seq<Value>, f: Seq<Vec<u8>>) -> bool {
    &&& l.len() == f.len()
    &&& forall|i: int| 0 <= i < l.len() ==> (#[trigger] l[i]) is Bytes && f[i]@ == l[i]->Bytes_0@
}

pub open spec fn text_list_field(e: Option<Value>, f: Option<Vec<Vec<u8>>>) -> bool {
    match e {
        None => f is None,
        Some(v) => v is List && f is Some && text_list(v->List_0@, f->0@),
    }
}

/// Tiers of tracker URLs: a list of lists of byte strings.
pub open spec fn tiers_field(e: Option<Value>, f: Option<Vec<Vec<Vec<u8>>>>) -> bool {
    match e {
        None => f is None,
        Some(v) => v is List && f is Some && v->List_0@.len() == f->0@.len() && forall|i: int|
            0 <= i < v->List_0@.len() ==> (#[trigger] v->List_0@[i]) is List && text_list(
                v->List_0@[i]->List_0@,
                f->0@[i]@,
            ),
    }
}

/// A node written as a two-element list: host, then port.
pub open spec fn node_of(v: Value, n: Node) -> bool {
    &&& v is List
    &&& v->List_0@.len() == 2
    &&& v->List_0@[0] is Bytes && n.0@ == v->List_0@[0]->Bytes_0@
    &&& v->List_0@[1] is Int && n.1 == v->List_0@[1]->Int_0
}

pub open spec fn nodes_field(e: Option<Value>, f: Option<Vec<Node>>) -> bool {
    match e {
        None => f is None,
        Some(v) => v is List && f is Some && v->List_0@.len() == f->0@.len() && forall|i: int|
            0 <= i < v->List_0@.len() ==> node_of(#[trigger] v->List_0@[i], f->0@[i]),
    }
}

/// A file entry: a dictionary with a path list, a length and maybe a checksum.
pub open spec fn file_of(v: Value, f: File) -> bool {
    &&& v is Dict
    &&& text_list_field(lookup(v->Dict_0@, keys::key_path()), Some(f.path))
    &&& int_field(lookup(v->Dict_0@, keys::key_length()), Some(f.length))
    &&& text_field(lookup(v->Dict_0@, keys::key_md5sum()), f.md5sum)
}

pub open spec fn files_field(e: Option<Value>, f: Option<Vec<File>>) -> bool {
    match e {
        None => f is None,
        Some(v) => v is List && f is Some && v->List_0@.len() == f->0@.len() && forall|i: int|
            0 <= i < v->List_0@.len() ==> file_of(#[trigger] v->List_0@[i], f->0@[i]),
    }
}

/// Whether an info dictionary has the three fields it cannot do without.
pub open spec fn has_required(d: Seq<(Vec<u8>, Value)>) -> bool {
    &&& lookup(d, keys::key_name()) is Some
    &&& lookup(d, keys::key_pieces()) is Some
    &&& lookup(d, keys::key_piece_length()) is Some
}

/// `info` holds exactly what the dictionary `v` says.
pub open spec fn info_of(v: Value, info: Info) -> bool {
    &&& v is Dict
    &&& text_field(lookup(v->Dict_0@, keys::key_name()), Some(info.name))
    &&& text_field(lookup(v->Dict_0@, keys::key_pieces()), Some(info.pieces))
    &&& int_field(lookup(v->Dict_0@, keys::key_piece_length()), Some(info.piece_length))
    &&& text_field(lookup(v->Dict_0@, keys::key_md5sum()), info.md5sum)
    &&& int_field(lookup(v->Dict_0@, keys::key_length()), info.length)
    &&& files_field(lookup(v->Dict_0@, keys::key_files()), info.files)
    &&& flag_field(lookup(v->Dict_0@, keys::key_private()), info.private)
    &&& text_list_field(lookup(v->Dict_0@, keys::key_path()), info.path)
    &&& text_field(lookup(v->Dict_0@, keys::key_root_hash()), info.root_hash)
    &&& int_field(lookup(v->Dict_0@, keys::key_meta_version()), info.meta_version)
}

/// `t` holds exactly what the dictionary `v` says.
pub open spec fn torrent_of(v: Value, t: Torrent) -> bool {
    &&& v is Dict
    &&& lookup(v->Dict_0@, keys::key_info()) matches Some(iv) && info_of(iv, t.info)
    &&& text_field(lookup(v->Dict_0@, keys::key_announce()), t.announce)
    &&& nodes_field(lookup(v->Dict_0@, keys::key_nodes()), t.nodes)
    &&& text_field(lookup(v->Dict_0@, keys::key_encoding()), t.encoding)
    &&& text_list_field(lookup(v->Dict_0@, keys::key_httpseeds()), t.httpseeds)
    &&& tiers_field(lookup(v->Dict_0@, keys::key_announce_list()), t.announce_list)
    &&& int_field(lookup(v->Dict_0@, keys::key_creation_date()), t.creation_date)
    &&& text_field(lookup(v->Dict_0@, keys::key_comment()), t.comment)
    &&& text_field(lookup(v->Dict_0@, keys::key_created_by()), t.created_by)
}

/// An optional field that, when present, is a byte string.
pub open spec fn text_shape(e: Option<Value>) -> bool {
    match e {
        Some(v) => v is Bytes,
        None => true,
    }
}

/// An optional field that, when present, is an integer.
pub open spec fn int_shape(e: Option<Value>) -> bool {
    match e {
        Some(v) => v is Int,
        None => true,
    }
}

/// An optional field that, when present, is an integer that fits a byte.
pub open spec fn flag_shape(e: Option<Value>) -> bool {
    match e {
        Some(v) => v is Int && 0 <= v->Int_0 <= 255,
        None => true,
    }
}

/// An optional byte count: when present, a non-negative integer.
pub open spec fn len_shape(e: Option<Value>) -> bool {
    match e {
        Some(v) => v is Int && v->Int_0 >= 0,
        None => true,
    }
}

/// Every element is a byte string.
pub open spec fn all_text(l: Seq<Value>) -> bool {
    forall|i: int| 0 <= i < l.len() ==> (#[trigger] l[i]) is Bytes
}

pub open spec fn text_list_shape(e: Option<Value>) -> bool {
    match e {
        Some(v) => v is List && all_text(v->List_0@),
        None => true,
    }
}

pub open spec fn tiers_shape(e: Option<Value>) -> bool {
    match e {
        Some(v) => v is List && forall|i: int|
            0 <= i < v->List_0@.len() ==> (#[trigger] v->List_0@[i]) is List && all_text(
                v->List_0@[i]->List_0@,
            ),
        None => true,
    }
}

pub open spec fn node_shape(v: Value) -> bool {
    &&& v is List
    &&& v->List_0@.len() == 2
    &&& v->List_0@[0] is Bytes
    &&& v->List_0@[1] is Int
}

pub open spec fn nodes_shape(e: Option<Value>) -> bool {
    match e {
        Some(v) => v is List && forall|i: int|
            0 <= i < v->List_0@.len() ==> node_shape(#[trigger] v->List_0@[i]),
        None => true,
    }
}

/// A file entry that can be read: a dictionary with a path list and a length.
pub open spec fn file_shape(v: Value) -> bool {
    &&& v is Dict
    &&& lookup(v->Dict_0@, keys::key_path()) is Some
    &&& lookup(v->Dict_0@, keys::key_length()) is Some
    &&& text_list_shape(lookup(v->Dict_0@, keys::key_path()))
    &&& len_shape(lookup(v->Dict_0@, keys::key_length()))
    &&& text_shape(lookup(v->Dict_0@, keys::key_md5sum()))
}

pub open spec fn files_shape(e: Option<Value>) -> bool {
    match e {
        Some(v) => v is List && forall|i: int|
            0 <= i < v->List_0@.len() ==> file_shape(#[trigger] v->List_0@[i]),
        None => true,
    }
}

/// An info dictionary that can be read: the required fields are there and
/// every field present has the expected kind.
pub open spec fn info_shape(v: Value) -> bool {
    &&& v is Dict
    &&& has_required(v->Dict_0@)
    &&& text_shape(lookup(v->Dict_0@, keys::key_name()))
    &&& text_shape(lookup(v->Dict_0@, keys::key_pieces()))
    &&& int_shape(lookup(v->Dict_0@, keys::key_piece_length()))
    &&& text_shape(lookup(v->Dict_0@, keys::key_md5sum()))
    &&& len_shape(lookup(v->Dict_0@, keys::key_length()))
    &&& files_shape(lookup(v->Dict_0@, keys::key_files()))
    &&& flag_shape(lookup(v->Dict_0@, keys::key_private()))
    &&& text_list_shape(lookup(v->Dict_0@, keys::key_path()))
    &&& text_shape(lookup(v->Dict_0@, keys::key_root_hash()))
    &&& int_shape(lookup(v->Dict_0@, keys::key_meta_version()))
}

/// A metadata dictionary that lacks the info dictionary, or whose info
/// dictionary lacks a required field.
pub open spec fn torrent_missing(v: Value) -> bool {
    &&& v is Dict
    &&& match lookup(v->Dict_0@, keys::key_info()) {
        None => true,
        Some(iv) => iv is Dict && !has_required(iv->Dict_0@),
    }
}

/// A metadata dictionary that can be read.
pub open spec fn torrent_shape(v: Value) -> bool {
    &&& v is Dict
    &&& lookup(v->Dict_0@, keys::key_info()) matches Some(iv) && info_shape(iv)
    &&& text_shape(lookup(v->Dict_0@, keys::key_announce()))
    &&& nodes_shape(lookup(v->Dict_0@, keys::key_nodes()))
    &&& text_shape(lookup(v->Dict_0@, keys::key_encoding()))
    &&& text_list_shape(lookup(v->Dict_0@, keys::key_httpseeds()))
    &&& tiers_shape(lookup(v->Dict_0@, keys::key_announce_list()))
    &&& int_shape(lookup(v->Dict_0@, keys::key_creation_date()))
    &&& text_shape(lookup(v->Dict_0@, keys::key_comment()))
    &&& text_shape(lookup(v->Dict_0@, keys::key_created_by()))
}

fn bytes_eq(a: &Vec<u8>, b: &Vec<u8>) -> (r: bool)
    ensures
        r == (a@ == b@),
{
    if a.len() != b.len() {
        return false;
    }
    let mut i: usize = 0;
    while i < a.len()
        invariant
            0 <= i <= a.len(),
            a.len() == b.len(),
            forall|k: int| 0 <= k < i ==> a@[k] == b@[k],
        decreases a.len() - i,
    {
        if a[i] != b[i] {
            return false;
        }
        i = i + 1;
    }
    assert(a@ =~= b@);
    true
}

fn copy_bytes(b: &Vec<u8>) -> (r: Vec<u8>)
    ensures
        r@ == b@,
{
    let mut r: Vec<u8> = Vec::new();
    let mut i: usize = 0;
    while i < b.len()
        invariant
            0 <= i <= b.len(),
            r@ == b@.subrange(0, i as int),
        decreases b.len() - i,
    {
        r.push(b[i]);
        i = i + 1;
        assert(r@ =~= b@.subrange(0, i as int));
    }
    assert(b@.subrange(0, b.len() as int) =~= b@);
    r
}

/// The index of the first entry with key `k`.
fn find(d: &Vec<(Vec<u8>, Value)>, k: &Vec<u8>) -> (r: Option<usize>)
    ensures
        match r {
            Some(i) => i < d.len() && lookup(d@, k@) == Some(d@[i as int].1),
            None => lookup(d@, k@) is None,
        },
{
    let mut i: usize = 0;
    while i < d.len()
        invariant
            0 <= i <= d.len(),
            lookup(d@, k@) == lookup_from(d@, k@, i as int),
        decreases d.len() - i,
    {
        if bytes_eq(&d[i].0, k) {
            return Some(i);
        }
        i = i + 1;
    }
    None
}

fn get_text(d: &Vec<(Vec<u8>, Value)>, k: &Vec<u8>) -> (r: Result<Option<Vec<u8>>, DecodeError>)
    ensures
        r is Ok <==> text_shape(lookup(d@, k@)),
        r matches Ok(f) ==> text_field(lookup(d@, k@), f),
        r is Err ==> r == Err::<Option<Vec<u8>>, DecodeError>(DecodeError::TypeMismatch),
{
    match find(d, k) {
        None => Ok(None),
        Some(i) => match &d[i].1 {
            Value::Bytes(b) => Ok(Some(copy_bytes(b))),
            _ => Err(DecodeError::TypeMismatch),
        },
    }
}

fn get_int(d: &Vec<(Vec<u8>, Value)>, k: &Vec<u8>) -> (r: Result<Option<i64>, DecodeError>)
    ensures
        r is Ok <==> int_shape(lookup(d@, k@)),
        r matches Ok(f) ==> int_field(lookup(d@, k@), f),
        r is Err ==> r == Err::<Option<i64>, DecodeError>(DecodeError::TypeMismatch),
{
    match find(d, k) {
        None => Ok(None),
        Some(i) => match &d[i].1 {
            Value::Int(n) => Ok(Some(*n)),
            _ => Err(DecodeError::TypeMismatch),
        },
    }
}

fn get_length(d: &Vec<(Vec<u8>, Value)>, k: &Vec<u8>) -> (r: Result<Option<i64>, DecodeError>)
    ensures
        r is Ok <==> len_shape(lookup(d@, k@)),
        r matches Ok(f) ==> int_field(lookup(d@, k@), f) && (f matches Some(n) ==> n >= 0),
        r is Err ==> r == Err::<Option<i64>, DecodeError>(DecodeError::TypeMismatch),
{
    match get_int(d, k) {
        Ok(Some(n)) => if n >= 0 {
            Ok(Some(n))
        } else {
            Err(DecodeError::TypeMismatch)
        },
        Ok(None) => Ok(None),
        Err(e) => Err(e),
    }
}

fn text_list_of(l: &Vec<Value>) -> (r: Result<Vec<Vec<u8>>, DecodeError>)
    ensures
        r is Ok <==> all_text(l@),
        r matches Ok(f) ==> text_list(l@, f@),
        r is Err ==> r == Err::<Vec<Vec<u8>>, DecodeError>(DecodeError::TypeMismatch),
{
    let mut out: Vec<Vec<u8>> = Vec::new();
    let mut i: usize = 0;
    while i < l.len()
        invariant
            0 <= i <= l.len(),
            text_list(l@.subrange(0, i as int), out@),
        decreases l.len() - i,
    {
        match &l[i] {
            Value::Bytes(b) => {
                out.push(copy_bytes(b));
            },
            _ => {
                return Err(DecodeError::TypeMismatch);
            },
        }
        i = i + 1;
        assert(text_list(l@.subrange(0, i as int), out@)) by {
            assert forall|j: int| 0 <= j < i implies (#[trigger] l@.subrange(0, i as int)[j]) is Bytes
                && out@[j]@ == l@.subrange(0, i as int)[j]->Bytes_0@ by {
                if j < i - 1 {
                    assert(l@.subrange(0, i as int)[j] == l@.subrange(0, i - 1)[j]);
                }
            }
        }
    }
    assert(l@.subrange(0, l.len() as int) =~= l@);
    Ok(out)
}

fn get_text_list(d: &Vec<(Vec<u8>, Value)>, k: &Vec<u8>) -> (r: Result<
    Option<Vec<Vec<u8>>>,
    DecodeError,
>)
    ensures
        r is Ok <==> text_list_shape(lookup(d@, k@)),
        r matches Ok(f) ==> text_list_field(lookup(d@, k@), f),
        r is Err ==> r == Err::<Option<Vec<Vec<u8>>>, DecodeError>(DecodeError::TypeMismatch),
{
    match find(d, k) {
        None => Ok(None),
        Some(i) => match &d[i].1 {
            Value::List(l) => match text_list_of(l) {
                Ok(f) => Ok(Some(f)),
                Err(e) => Err(e),
            },
            _ => Err(DecodeError::TypeMismatch),
        },
    }
}


fn get_tiers(d: &Vec<(Vec<u8>, Value)>, k: &Vec<u8>) -> (r: Result<
    Option<Vec<Vec<Vec<u8>>>>,
    DecodeError,
>)
    ensures
        r is Ok <==> tiers_shape(lookup(d@, k@)),
        r matches Ok(f) ==> tiers_field(lookup(d@, k@), f),
        r is Err ==> r == Err::<Option<Vec<Vec<Vec<u8>>>>, DecodeError>(DecodeError::TypeMismatch),
{
    let l = match find(d, k) {
        None => return Ok(None),
        Some(i) => match &d[i].1 {
            Value::List(l) => l,
            _ => return Err(DecodeError::TypeMismatch),
        },
    };
    let mut out: Vec<Vec<Vec<u8>>> = Vec::new();
    let mut i: usize = 0;
    while i < l.len()
        invariant
            0 <= i <= l.len(),
            out@.len() == i,
            lookup(d@, k@) == Some(Value::List(*l)),
            forall|j: int| 0 <= j < i ==> (#[trigger] l@[j]) is List && text_list(l@[j]->List_0@, out@[j]@),
        decreases l.len() - i,
    {
        match &l[i] {
            Value::List(t) => match text_list_of(t) {
                Ok(f) => out.push(f),
                Err(e) => {
                    assert(!all_text(l@[i as int]->List_0@));
                    return Err(e);
                },
            },
            _ => {
                assert(!(l@[i as int] is List));
                return Err(DecodeError::TypeMismatch);
            },
        }
        i = i + 1;
    }
    Ok(Some(out))
}

fn get_nodes(d: &Vec<(Vec<u8>, Value)>, k: &Vec<u8>) -> (r: Result<Option<Vec<Node>>, DecodeError>)
    ensures
        r is Ok <==> nodes_shape(lookup(d@, k@)),
        r matches Ok(f) ==> nodes_field(lookup(d@, k@), f),
        r is Err ==> r == Err::<Option<Vec<Node>>, DecodeError>(DecodeError::TypeMismatch),
{
    let l = match find(d, k) {
        None => return Ok(None),
        Some(i) => match &d[i].1 {
            Value::List(l) => l,
            _ => return Err(DecodeError::TypeMismatch),
        },
    };
    let mut out: Vec<Node> = Vec::new();
    let mut i: usize = 0;
    while i < l.len()
        invariant
            0 <= i <= l.len(),
            out@.len() == i,
            lookup(d@, k@) == Some(Value::List(*l)),
            forall|j: int| 0 <= j < i ==> node_of(#[trigger] l@[j], out@[j]),
        decreases l.len() - i,
    {
        match &l[i] {
            Value::List(p) => {
                if p.len() != 2 {
                    assert(!node_shape(l@[i as int]));
                    assert(lookup(d@, k@)->0->List_0@[i as int] == l@[i as int]);
                    assert(!nodes_shape(lookup(d@, k@)));
                    return Err(DecodeError::TypeMismatch);
                }
                match (&p[0], &p[1]) {
                    (Value::Bytes(h), Value::Int(port)) => out.push(Node(copy_bytes(h), *port)),
                    _ => {
                        assert(!node_shape(l@[i as int]));
                        assert(lookup(d@, k@)->0->List_0@[i as int] == l@[i as int]);
                    assert(!nodes_shape(lookup(d@, k@)));
                        return Err(DecodeError::TypeMismatch);
                    },
                }
            },
            _ => {
                assert(!node_shape(l@[i as int]));
                return Err(DecodeError::TypeMismatch);
            },
        }
        i = i + 1;
    }
    Ok(Some(out))
}

impl File {
    /// Reads a file entry from its dictionary.
    pub fn from_value(v: &Value) -> (r: Result<File, DecodeError>)
        ensures
            r is Ok <==> file_shape(*v),
            r matches Ok(f) ==> file_of(*v, f) && f.length >= 0,
            !file_shape(*v) ==> r == Err::<File, DecodeError>(DecodeError::TypeMismatch),
    {
        let d = match v {
            Value::Dict(d) => d,
            _ => return Err(DecodeError::TypeMismatch),
        };
        let path_k = keys::path_key();
        let length_k = keys::length_key();
        if find(d, &path_k).is_none() || find(d, &length_k).is_none() {
            return Err(DecodeError::TypeMismatch);
        }
        let path = match get_text_list(d, &path_k) {
            Ok(Some(p)) => p,
            _ => return Err(DecodeError::TypeMismatch),
        };
        let length = match get_length(d, &length_k) {
            Ok(Some(n)) => n,
            _ => return Err(DecodeError::TypeMismatch),
        };
        let md5sum = match get_text(d, &keys::md5sum_key()) {
            Ok(m) => m,
            Err(e) => return Err(e),
        };
        Ok(File { path, length, md5sum })
    }
}

fn get_files(d: &Vec<(Vec<u8>, Value)>, k: &Vec<u8>) -> (r: Result<Option<Vec<File>>, DecodeError>)
    ensures
        r is Ok <==> files_shape(lookup(d@, k@)),
        r matches Ok(f) ==> files_field(lookup(d@, k@), f),
        r matches Ok(Some(fs)) ==> forall|j: int| 0 <= j < fs@.len() ==> #[trigger] fs@[j].length >= 0,
        r is Err ==> r == Err::<Option<Vec<File>>, DecodeError>(DecodeError::TypeMismatch),
{
    let l = match find(d, k) {
        None => return Ok(None),
        Some(i) => match &d[i].1 {
            Value::List(l) => l,
            _ => return Err(DecodeError::TypeMismatch),
        },
    };
    let mut out: Vec<File> = Vec::new();
    let mut i: usize = 0;
    while i < l.len()
        invariant
            0 <= i <= l.len(),
            out@.len() == i,
            lookup(d@, k@) == Some(Value::List(*l)),
            forall|j: int| 0 <= j < i ==> file_of(#[trigger] l@[j], out@[j]),
            forall|j: int| 0 <= j < i ==> #[trigger] out@[j].length >= 0,
        decreases l.len() - i,
    {
        match File::from_value(&l[i]) {
            Ok(f) => out.push(f),
            Err(e) => {
                assert(!file_shape(l@[i as int]));
                assert(lookup(d@, k@)->0->List_0@[i as int] == l@[i as int]);
                assert(!files_shape(lookup(d@, k@)));
                return Err(e);
            },
        }
        i = i + 1;
    }
    Ok(Some(out))
}

fn get_flag(d: &Vec<(Vec<u8>, Value)>, k: &Vec<u8>) -> (r: Result<Option<u8>, DecodeError>)
    ensures
        r is Ok <==> flag_shape(lookup(d@, k@)),
        r matches Ok(f) ==> flag_field(lookup(d@, k@), f),
        r is Err ==> r == Err::<Option<u8>, DecodeError>(DecodeError::TypeMismatch),
{
    match get_int(d, k) {
        Ok(Some(n)) => if 0 <= n && n <= 255 {
            Ok(Some(n as u8))
        } else {
            Err(DecodeError::TypeMismatch)
        },
        Ok(None) => Ok(None),
        Err(e) => Err(e),
    }
}

impl Info {
    /// Reads the info dictionary. The name, the pieces and the piece length
    /// are required; every other field may be absent.
    pub fn from_value(v: &Value) -> (r: Result<Info, DecodeError>)
        ensures
            r is Ok <==> info_shape(*v),
            r matches Ok(info) ==> info_of(*v, info) && lengths_valid(info),
            !(v is Dict) ==> r == Err::<Info, DecodeError>(DecodeError::TypeMismatch),
            !(v is Dict && !has_required(v->Dict_0@)) && !info_shape(*v) ==> r == Err::<
                Info,
                DecodeError,
            >(DecodeError::TypeMismatch),
            v matches Value::Dict(d) && !has_required(d@) ==> r == Err::<Info, DecodeError>(
                DecodeError::MissingField,
            ),
    {
        let d = match v {
            Value::Dict(d) => d,
            _ => return Err(DecodeError::TypeMismatch),
        };
        let name_k = keys::name_key();
        let pieces_k = keys::pieces_key();
        let piece_length_k = keys::piece_length_key();
        if find(d, &name_k).is_none() || find(d, &pieces_k).is_none() || find(
            d,
            &piece_length_k,
        ).is_none() {
            return Err(DecodeError::MissingField);
        }
        let name = match get_text(d, &name_k) {
            Ok(Some(b)) => b,
            _ => return Err(DecodeError::TypeMismatch),
        };
        let pieces = match get_text(d, &pieces_k) {
            Ok(Some(b)) => b,
            _ => return Err(DecodeError::TypeMismatch),
        };
        let piece_length = match get_int(d, &piece_length_k) {
            Ok(Some(n)) => n,
            _ => return Err(DecodeError::TypeMismatch),
        };
        let md5sum = match get_text(d, &keys::md5sum_key()) {
            Ok(x) => x,
            Err(e) => return Err(e),
        };
        let length = match get_length(d, &keys::length_key()) {
            Ok(x) => x,
            Err(e) => return Err(e),
        };
        let files = match get_files(d, &keys::files_key()) {
            Ok(x) => x,
            Err(e) => return Err(e),
        };
        let private = match get_flag(d, &keys::private_key()) {
            Ok(x) => x,
            Err(e) => return Err(e),
        };
        let path = match get_text_list(d, &keys::path_key()) {
            Ok(x) => x,
            Err(e) => return Err(e),
        };
        let root_hash = match get_text(d, &keys::root_hash_key()) {
            Ok(x) => x,
            Err(e) => return Err(e),
        };
        let meta_version = match get_int(d, &keys::meta_version_key()) {
            Ok(x) => x,
            Err(e) => return Err(e),
        };
        Ok(
            Info {
                name,
                pieces,
                piece_length,
                md5sum,
                length,
                files,
                private,
                path,
                root_hash,
                meta_version,
            },
        )
    }
}

impl Torrent {
    /// Reads a whole metadata dictionary; unknown keys are ignored.
    pub fn from_value(v: &Value) -> (r: Result<Torrent, DecodeError>)
        ensures
            r is Ok <==> torrent_shape(*v),
            r matches Ok(t) ==> torrent_of(*v, t) && lengths_valid(t.info),
            !(v is Dict) ==> r == Err::<Torrent, DecodeError>(DecodeError::TypeMismatch),
            torrent_missing(*v) ==> r == Err::<Torrent, DecodeError>(DecodeError::MissingField),
            !torrent_missing(*v) && !torrent_shape(*v) ==> r == Err::<Torrent, DecodeError>(
                DecodeError::TypeMismatch,
            ),
            v matches Value::Dict(d) && lookup(d@, keys::key_info()) is None ==> r == Err::<
                Torrent,
                DecodeError,
            >(DecodeError::MissingField),
            v matches Value::Dict(d) && (lookup(d@, keys::key_info()) matches Some(iv) && iv matches Value::Dict(
                e,
            ) && !has_required(e@)) ==> r == Err::<Torrent, DecodeError>(DecodeError::MissingField),
    {
        let d = match v {
            Value::Dict(d) => d,
            _ => return Err(DecodeError::TypeMismatch),
        };
        let info = match find(d, &keys::info_key()) {
            None => return Err(DecodeError::MissingField),
            Some(i) => match Info::from_value(&d[i].1) {
                Ok(info) => info,
                Err(e) => return Err(e),
            },
        };
        let announce = match get_text(d, &keys::announce_key()) {
            Ok(x) => x,
            Err(e) => return Err(e),
        };
        let nodes = match get_nodes(d, &keys::nodes_key()) {
            Ok(x) => x,
            Err(e) => return Err(e),
        };
        let encoding = match get_text(d, &keys::encoding_key()) {
            Ok(x) => x,
            Err(e) => return Err(e),
        };
        let httpseeds = match get_text_list(d, &keys::httpseeds_key()) {
            Ok(x) => x,
            Err(e) => return Err(e),
        };
        let announce_list = match get_tiers(d, &keys::announce_list_key()) {
            Ok(x) => x,
            Err(e) => return Err(e),
        };
        let creation_date = match get_int(d, &keys::creation_date_key()) {
            Ok(x) => x,
            Err(e) => return Err(e),
        };
        let comment = match get_text(d, &keys::comment_key()) {
            Ok(x) => x,
            Err(e) => return Err(e),
        };
        let created_by = match get_text(d, &keys::created_by_key()) {
            Ok(x) => x,
            Err(e) => return Err(e),
        };
        Ok(
            Torrent {
                info,
                announce,
                nodes,
                encoding,
                httpseeds,
                announce_list,
                creation_date,
                comment,
                created_by,
            },
        )
    }

    /// Decodes a metadata file: the bencoded value, then its typed reading.
    pub fn from_bytes(bytes: &[u8]) -> (r: Result<Torrent, DecodeError>)
        ensures
            r matches Ok(t) ==> lengths_valid(t.info) && exists|v: Value| #[trigger] enc(v)
                == bytes@ && torrent_of(v, t),
            r is Err ==> !(exists|v: Value| #[trigger] enc(v) == bytes@) || exists|v: Value|
                #[trigger] enc(v) == bytes@ && !torrent_shape(v),
            (exists|v: Value| #[trigger] enc(v) == bytes@) && (forall|v: Value| #[trigger] enc(v)
                == bytes@ ==> torrent_missing(v)) ==> r == Err::<Torrent, DecodeError>(
                DecodeError::MissingField,
            ),
            (exists|v: Value| #[trigger] enc(v) == bytes@) && (forall|v: Value| #[trigger] enc(v)
                == bytes@ ==> !torrent_missing(v) && !torrent_shape(v)) ==> r == Err::<
                Torrent,
                DecodeError,
            >(DecodeError::TypeMismatch),
            (exists|v: Value| #[trigger] enc(v) == bytes@) && (forall|v: Value| #[trigger] enc(v)
                == bytes@ ==> torrent_shape(v)) ==> r is Ok,
            !(exists|v: Value| #[trigger] enc(v) == bytes@) ==> r is Err,
            bytes@.len() == 0 ==> r == Err::<Torrent, DecodeError>(DecodeError::Truncated),
            !(exists|v: Value| #[trigger] enc(v) == bytes@) && (exists|v: Value| #[trigger] cut_at(
                bytes@,
                0,
                enc(v),
            )) ==> r == Err::<Torrent, DecodeError>(DecodeError::Truncated),
            bytes@.len() > 0 && !crate::bencode::starts_value(bytes@[0]) ==> r == Err::<
                Torrent,
                DecodeError,
            >(DecodeError::Syntax),
    {
        match decode(bytes) {
            Ok(v) => Torrent::from_value(&v),
            Err(e) => Err(e),
        }
    }
}


pub open spec fn opt_int(f: Option<i64>) -> Option<int> {
    match f {
        Some(n) => Some(n as int),
        None => None,
    }
}

pub open spec fn opt_flag(f: Option<u8>) -> Option<int> {
    match f {
        Some(n) => Some(n as int),
        None => None,
    }
}

/// An integer as a bencoded item.
pub open spec fn int_item(n: int) -> Seq<u8> {
    seq![105u8] + int_text(n) + seq![101u8]
}

/// Byte strings, each bencoded, one after the other.
pub open spec fn texts(s: Seq<Vec<u8>>) -> Seq<u8>
    decreases s.len(),
{
    if s.len() == 0 {
        Seq::empty()
    } else {
        texts(s.drop_last()) + bytes_text(s.last()@)
    }
}

/// A list of byte strings as a bencoded item.
pub open spec fn text_list_item(s: Seq<Vec<u8>>) -> Seq<u8> {
    seq![108u8] + texts(s) + seq![101u8]
}

/// A key and a byte string, or nothing when the field is absent.
pub open spec fn text_entry(k: Seq<u8>, f: Option<Vec<u8>>) -> Seq<u8> {
    match f {
        Some(b) => bytes_text(k) + bytes_text(b@),
        None => Seq::empty(),
    }
}

/// A key and an integer, or nothing when the field is absent.
pub open spec fn int_entry(k: Seq<u8>, f: Option<int>) -> Seq<u8> {
    match f {
        Some(n) => bytes_text(k) + int_item(n),
        None => Seq::empty(),
    }
}

/// A file entry, keys in ascending order: length, md5sum, path.
pub open spec fn file_item(f: File) -> Seq<u8> {
    seq![100u8] + bytes_text(keys::key_length()) + int_item(f.length as int) + text_entry(
        keys::key_md5sum(),
        f.md5sum,
    ) + bytes_text(keys::key_path()) + text_list_item(f.path@) + seq![101u8]
}

pub open spec fn file_items(fs: Seq<File>) -> Seq<u8>
    decreases fs.len(),
{
    if fs.len() == 0 {
        Seq::empty()
    } else {
        file_items(fs.drop_last()) + file_item(fs.last())
    }
}

/// The file list entry, when there is one.
pub open spec fn files_part(files: Option<Vec<File>>) -> Seq<u8> {
    match files {
        Some(fs) => bytes_text(keys::key_files()) + seq![108u8] + file_items(fs@) + seq![101u8],
        None => Seq::empty(),
    }
}

/// The entries from `length` to `path`.
pub open spec fn middle_part(info: Info) -> Seq<u8> {
    int_entry(keys::key_length(), opt_int(info.length)) + text_entry(keys::key_md5sum(), info.md5sum)
        + int_entry(keys::key_meta_version(), opt_int(info.meta_version)) + bytes_text(
        keys::key_name(),
    ) + bytes_text(info.name@) + match info.path {
        Some(p) => bytes_text(keys::key_path()) + text_list_item(p@),
        None => Seq::empty(),
    }
}

/// The entries from `piece length` to `root hash`.
pub open spec fn tail_part(info: Info) -> Seq<u8> {
    bytes_text(keys::key_piece_length()) + int_item(info.piece_length as int) + bytes_text(
        keys::key_pieces(),
    ) + bytes_text(info.pieces@) + int_entry(keys::key_private(), opt_flag(info.private))
        + text_entry(keys::key_root_hash(), info.root_hash)
}

/// The canonical bencoding of an info dictionary: keys in ascending byte
/// order, absent fields left out.
pub open spec fn info_bytes(info: Info) -> Seq<u8> {
    seq![100u8] + files_part(info.files) + middle_part(info) + tail_part(info) + seq![101u8]
}

fn push_int_item(n: i64, out: &mut Vec<u8>)
    ensures
        final(out)@ == old(out)@ + int_item(n as int),
{
    out.push(105u8);
    push_int_text(n, out);
    out.push(101u8);
    assert(final(out)@ =~= old(out)@ + int_item(n as int));
}

fn push_text_list(s: &Vec<Vec<u8>>, out: &mut Vec<u8>)
    ensures
        final(out)@ == old(out)@ + text_list_item(s@),
{
    out.push(108u8);
    let ghost start = out@;
    let mut i: usize = 0;
    while i < s.len()
        invariant
            0 <= i <= s.len(),
            out@ == start + texts(s@.subrange(0, i as int)),
        decreases s.len() - i,
    {
        push_bytes_text(&s[i], out);
        proof {
            let t = s@.subrange(0, i + 1);
            assert(t.drop_last() =~= s@.subrange(0, i as int));
            assert(out@ =~= start + texts(t));
        }
        i = i + 1;
    }
    out.push(101u8);
    assert(s@.subrange(0, s.len() as int) =~= s@);
    assert(final(out)@ =~= old(out)@ + text_list_item(s@));
}

fn push_text_entry(k: &Vec<u8>, f: &Option<Vec<u8>>, out: &mut Vec<u8>)
    ensures
        final(out)@ == old(out)@ + text_entry(k@, *f),
{
    match f {
        Some(b) => {
            push_bytes_text(k, out);
            push_bytes_text(b, out);
            assert(final(out)@ =~= old(out)@ + text_entry(k@, *f));
        },
        None => {
            assert(final(out)@ =~= old(out)@ + text_entry(k@, *f));
        },
    }
}

fn push_int_entry(k: &Vec<u8>, f: Option<i64>, out: &mut Vec<u8>)
    ensures
        final(out)@ == old(out)@ + int_entry(k@, opt_int(f)),
{
    match f {
        Some(n) => {
            push_bytes_text(k, out);
            push_int_item(n, out);
            assert(final(out)@ =~= old(out)@ + int_entry(k@, opt_int(f)));
        },
        None => {
            assert(final(out)@ =~= old(out)@ + int_entry(k@, opt_int(f)));
        },
    }
}

fn push_file(f: &File, out: &mut Vec<u8>)
    ensures
        final(out)@ == old(out)@ + file_item(*f),
{
    out.push(100u8);
    push_bytes_text(&keys::length_key(), out);
    push_int_item(f.length, out);
    push_text_entry(&keys::md5sum_key(), &f.md5sum, out);
    push_bytes_text(&keys::path_key(), out);
    push_text_list(&f.path, out);
    out.push(101u8);
    assert(final(out)@ =~= old(out)@ + file_item(*f));
}

fn push_files_part(files: &Option<Vec<File>>, out: &mut Vec<u8>)
    ensures
        final(out)@ == old(out)@ + files_part(*files),
{
    match files {
        Some(fs) => {
            push_bytes_text(&keys::files_key(), out);
            out.push(108u8);
            let ghost start = out@;
            let mut i: usize = 0;
            while i < fs.len()
                invariant
                    0 <= i <= fs.len(),
                    out@ == start + file_items(fs@.subrange(0, i as int)),
                decreases fs.len() - i,
            {
                push_file(&fs[i], out);
                proof {
                    let t = fs@.subrange(0, i + 1);
                    assert(t.drop_last() =~= fs@.subrange(0, i as int));
                    assert(out@ =~= start + file_items(t));
                }
                i = i + 1;
            }
            out.push(101u8);
            assert(fs@.subrange(0, fs.len() as int) =~= fs@);
            assert(final(out)@ =~= old(out)@ + files_part(*files));
        },
        None => {
            assert(final(out)@ =~= old(out)@ + files_part(*files));
        },
    }
}

fn push_middle(info: &Info, out: &mut Vec<u8>)
    ensures
        final(out)@ == old(out)@ + middle_part(*info),
{
    push_int_entry(&keys::length_key(), info.length, out);
    push_text_entry(&keys::md5sum_key(), &info.md5sum, out);
    push_int_entry(&keys::meta_version_key(), info.meta_version, out);
    push_bytes_text(&keys::name_key(), out);
    push_bytes_text(&info.name, out);
    match &info.path {
        Some(p) => {
            push_bytes_text(&keys::path_key(), out);
            push_text_list(p, out);
        },
        None => {},
    }
    assert(final(out)@ =~= old(out)@ + middle_part(*info));
}

fn push_tail(info: &Info, out: &mut Vec<u8>)
    ensures
        final(out)@ == old(out)@ + tail_part(*info),
{
    push_bytes_text(&keys::piece_length_key(), out);
    push_int_item(info.piece_length, out);
    push_bytes_text(&keys::pieces_key(), out);
    push_bytes_text(&info.pieces, out);
    let private: Option<i64> = match info.private {
        Some(n) => Some(n as i64),
        None => None,
    };
    push_int_entry(&keys::private_key(), private, out);
    push_text_entry(&keys::root_hash_key(), &info.root_hash, out);
    assert(opt_int(private) == opt_flag(info.private));
    assert(final(out)@ =~= old(out)@ + tail_part(*info));
}

impl Info {
    /// The canonical bencoding of this info dictionary, the input of both
    /// digests.
    pub fn encode_canonical(&self) -> (r: Vec<u8>)
        ensures
            r@ == info_bytes(*self),
    {
        let mut out: Vec<u8> = Vec::new();
        out.push(100u8);
        push_files_part(&self.files, &mut out);
        push_middle(self, &mut out);
        push_tail(self, &mut out);
        out.push(101u8);
        assert(out@ =~= info_bytes(*self));
        out
    }
}


/// The info hash: SHA-1 of the canonical info bytes, in lowercase hex.
pub open spec fn sha1_hex(info: Info) -> Seq<char> {
    hex_text(sha1_of(info_bytes(info)))
}

/// The legacy checksum: MD5 of the canonical info bytes, in lowercase hex.
pub open spec fn md5_hex(info: Info) -> Seq<char> {
    hex_text(md5_of(info_bytes(info)))
}

/// Both digests depend on the info dictionary alone: two torrents with the
/// same info part have the same digests, whatever their other fields hold.
pub proof fn lemma_digests_depend_on_info_only(t1: Torrent, t2: Torrent)
    requires
        t1.info == t2.info,
    ensures
        sha1_hex(t1.info) == sha1_hex(t2.info),
        md5_hex(t1.info) == md5_hex(t2.info),
{
}

impl Torrent {
    /// The SHA-1 info hash, as lowercase hex.
    pub fn sha1(&self) -> (r: String)
        ensures
            r@ == sha1_hex(self.info),
            r@.len() == 40,
    {
        let bytes = self.info.encode_canonical();
        let digest = sha1_digest(bytes.as_slice());
        proof {
            lemma_hex_text_len(digest@);
        }
        hex_encode(digest.as_slice())
    }

    /// The legacy MD5 checksum of the info dictionary, as lowercase hex.
    pub fn md5(&self) -> (r: String)
        ensures
            r@ == md5_hex(self.info),
            r@.len() == 32,
    {
        let bytes = self.info.encode_canonical();
        let digest = md5_digest(bytes.as_slice());
        proof {
            lemma_hex_text_len(digest@);
        }
        hex_encode(digest.as_slice())
    }
}


/// The figures derived from a decoded torrent.
#[derive(Debug)]
pub struct Summary {
    pub total_size: u128,
    /// The MD5 checksum of the info dictionary, lowercase hex.
    pub md5: String,
    /// The SHA-1 info hash, lowercase hex.
    pub sha1: String,
    /// True exactly when the info holds a file list.
    pub is_single: bool,
    pub files_count: usize,
    pub pieces_count: usize,
}

/// The summary of `t`, field for field.
pub open spec fn summary_of(t: Torrent, s: Summary) -> bool {
    &&& s.total_size as int == total_size_of(t.info)
    &&& s.md5@ == md5_hex(t.info) && s.md5@.len() == 32
    &&& s.sha1@ == sha1_hex(t.info) && s.sha1@.len() == 40
    &&& s.is_single == t.info.files is Some
    &&& s.files_count as int == files_count_of(t.info)
    &&& s.pieces_count as int == t.info.pieces@.len() / 20
}

impl Torrent {
    /// Whether no file length is negative.
    pub fn has_valid_lengths(&self) -> (r: bool)
        ensures
            r == lengths_valid(self.info),
    {
        if let Some(n) = self.info.length {
            if n < 0 {
                return false;
            }
        }
        match &self.info.files {
            Some(fs) => {
                let mut i: usize = 0;
                while i < fs.len()
                    invariant
                        0 <= i <= fs.len(),
                        self.info.files == Some(*fs),
                        self.info.length matches Some(n) ==> n >= 0,
                        forall|j: int| 0 <= j < i ==> #[trigger] fs@[j].length >= 0,
                    decreases fs.len() - i,
                {
                    if fs[i].length < 0 {
                        return false;
                    }
                    i = i + 1;
                }
                true
            },
            None => true,
        }
    }

    /// All the derived figures at once.
    pub fn summary(&self) -> (r: Summary)
        requires
            lengths_valid(self.info),
        ensures
            summary_of(*self, r),
    {
        Summary {
            total_size: self.total_size(),
            md5: self.md5(),
            sha1: self.sha1(),
            is_single: self.is_single(),
            files_count: self.files_count(),
            pieces_count: self.pieces_count(),
        }
    }
}

/// Decodes a metadata file and derives its figures; `None` exactly when the
/// bytes do not decode into torrent metadata.
pub fn inspect(bytes: &[u8]) -> (r: Option<(Torrent, Summary)>)
    ensures
        r matches Some((t, s)) ==> (exists|v: Value| #[trigger] enc(v) == bytes@ && torrent_of(v, t))
            && lengths_valid(t.info) && summary_of(t, s),
        (exists|v: Value| #[trigger] enc(v) == bytes@) && (forall|v: Value| #[trigger] enc(v)
            == bytes@ ==> torrent_shape(v)) ==> r is Some,
        r is None ==> !(exists|v: Value| #[trigger] enc(v) == bytes@) || exists|v: Value|
            #[trigger] enc(v) == bytes@ && !torrent_shape(v),
        bytes@.len() == 0 ==> r is None,
        bytes@.len() > 0 && !crate::bencode::starts_value(bytes@[0]) ==> r is None,
{
    match Torrent::from_bytes(bytes) {
        Ok(t) => {
            let s = t.summary();
            Some((t, s))
        },
        Err(_) => None,
    }
}

} // verus!
