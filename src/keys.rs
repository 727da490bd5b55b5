//! The keys of the torrent metadata dictionaries, as spec values and as
//! byte strings.

use vstd::prelude::*;

verus! {

/// The key `info`.
pub open spec fn key_info() -> Seq<u8> {
    seq![105u8, 110, 102, 111]
}

pub(crate) fn info_key() -> (r: Vec<u8>)
    ensures
        r@ == key_info(),
{
    let r: Vec<u8> = vec![105u8, 110, 102, 111];
    assert(r@ =~= key_info());
    r
}

/// The key `announce`.
pub open spec fn key_announce() -> Seq<u8> {
    seq![97u8, 110, 110, 111, 117, 110, 99, 101]
}

pub(crate) fn announce_key() -> (r: Vec<u8>)
    ensures
        r@ == key_announce(),
{
    let r: Vec<u8> = vec![97u8, 110, 110, 111, 117, 110, 99, 101];
    assert(r@ =~= key_announce());
    r
}

/// The key `nodes`.
pub open spec fn key_nodes() -> Seq<u8> {
    seq![110u8, 111, 100, 101, 115]
}

pub(crate) fn nodes_key() -> (r: Vec<u8>)
    ensures
        r@ == key_nodes(),
{
    let r: Vec<u8> = vec![110u8, 111, 100, 101, 115];
    assert(r@ =~= key_nodes());
    r
}

/// The key `encoding`.
pub open spec fn key_encoding() -> Seq<u8> {
    seq![101u8, 110, 99, 111, 100, 105, 110, 103]
}

pub(crate) fn encoding_key() -> (r: Vec<u8>)
    ensures
        r@ == key_encoding(),
{
    let r: Vec<u8> = vec![101u8, 110, 99, 111, 100, 105, 110, 103];
    assert(r@ =~= key_encoding());
    r
}

/// The key `httpseeds`.
pub open spec fn key_httpseeds() -> Seq<u8> {
    seq![104u8, 116, 116, 112, 115, 101, 101, 100, 115]
}

pub(crate) fn httpseeds_key() -> (r: Vec<u8>)
    ensures
        r@ == key_httpseeds(),
{
    let r: Vec<u8> = vec![104u8, 116, 116, 112, 115, 101, 101, 100, 115];
    assert(r@ =~= key_httpseeds());
    r
}

/// The key `announce-list`.
pub open spec fn key_announce_list() -> Seq<u8> {
    seq![97u8, 110, 110, 111, 117, 110, 99, 101, 45, 108, 105, 115, 116]
}

pub(crate) fn announce_list_key() -> (r: Vec<u8>)
    ensures
        r@ == key_announce_list(),
{
    let r: Vec<u8> = vec![97u8, 110, 110, 111, 117, 110, 99, 101, 45, 108, 105, 115, 116];
    assert(r@ =~= key_announce_list());
    r
}

/// The key `creation date`.
pub open spec fn key_creation_date() -> Seq<u8> {
    seq![99u8, 114, 101, 97, 116, 105, 111, 110, 32, 100, 97, 116, 101]
}

pub(crate) fn creation_date_key() -> (r: Vec<u8>)
    ensures
        r@ == key_creation_date(),
{
    let r: Vec<u8> = vec![99u8, 114, 101, 97, 116, 105, 111, 110, 32, 100, 97, 116, 101];
    assert(r@ =~= key_creation_date());
    r
}

/// The key `comment`.
pub open spec fn key_comment() -> Seq<u8> {
    seq![99u8, 111, 109, 109, 101, 110, 116]
}

pub(crate) fn comment_key() -> (r: Vec<u8>)
    ensures
        r@ == key_comment(),
{
    let r: Vec<u8> = vec![99u8, 111, 109, 109, 101, 110, 116];
    assert(r@ =~= key_comment());
    r
}

/// The key `created by`.
pub open spec fn key_created_by() -> Seq<u8> {
    seq![99u8, 114, 101, 97, 116, 101, 100, 32, 98, 121]
}

pub(crate) fn created_by_key() -> (r: Vec<u8>)
    ensures
        r@ == key_created_by(),
{
    let r: Vec<u8> = vec![99u8, 114, 101, 97, 116, 101, 100, 32, 98, 121];
    assert(r@ =~= key_created_by());
    r
}

/// The key `name`.
pub open spec fn key_name() -> Seq<u8> {
    seq![110u8, 97, 109, 101]
}

pub(crate) fn name_key() -> (r: Vec<u8>)
    ensures
        r@ == key_name(),
{
    let r: Vec<u8> = vec![110u8, 97, 109, 101];
    assert(r@ =~= key_name());
    r
}

/// The key `pieces`.
pub open spec fn key_pieces() -> Seq<u8> {
    seq![112u8, 105, 101, 99, 101, 115]
}

pub(crate) fn pieces_key() -> (r: Vec<u8>)
    ensures
        r@ == key_pieces(),
{
    let r: Vec<u8> = vec![112u8, 105, 101, 99, 101, 115];
    assert(r@ =~= key_pieces());
    r
}

/// The key `piece length`.
pub open spec fn key_piece_length() -> Seq<u8> {
    seq![112u8, 105, 101, 99, 101, 32, 108, 101, 110, 103, 116, 104]
}

pub(crate) fn piece_length_key() -> (r: Vec<u8>)
    ensures
        r@ == key_piece_length(),
{
    let r: Vec<u8> = vec![112u8, 105, 101, 99, 101, 32, 108, 101, 110, 103, 116, 104];
    assert(r@ =~= key_piece_length());
    r
}

/// The key `md5sum`.
pub open spec fn key_md5sum() -> Seq<u8> {
    seq![109u8, 100, 53, 115, 117, 109]
}

pub(crate) fn md5sum_key() -> (r: Vec<u8>)
    ensures
        r@ == key_md5sum(),
{
    let r: Vec<u8> = vec![109u8, 100, 53, 115, 117, 109];
    assert(r@ =~= key_md5sum());
    r
}

/// The key `length`.
pub open spec fn key_length() -> Seq<u8> {
    seq![108u8, 101, 110, 103, 116, 104]
}

pub(crate) fn length_key() -> (r: Vec<u8>)
    ensures
        r@ == key_length(),
{
    let r: Vec<u8> = vec![108u8, 101, 110, 103, 116, 104];
    assert(r@ =~= key_length());
    r
}

/// The key `files`.
pub open spec fn key_files() -> Seq<u8> {
    seq![102u8, 105, 108, 101, 115]
}

pub(crate) fn files_key() -> (r: Vec<u8>)
    ensures
        r@ == key_files(),
{
    let r: Vec<u8> = vec![102u8, 105, 108, 101, 115];
    assert(r@ =~= key_files());
    r
}

/// The key `private`.
pub open spec fn key_private() -> Seq<u8> {
    seq![112u8, 114, 105, 118, 97, 116, 101]
}

pub(crate) fn private_key() -> (r: Vec<u8>)
    ensures
        r@ == key_private(),
{
    let r: Vec<u8> = vec![112u8, 114, 105, 118, 97, 116, 101];
    assert(r@ =~= key_private());
    r
}

/// The key `path`.
pub open spec fn key_path() -> Seq<u8> {
    seq![112u8, 97, 116, 104]
}

pub(crate) fn path_key() -> (r: Vec<u8>)
    ensures
        r@ == key_path(),
{
    let r: Vec<u8> = vec![112u8, 97, 116, 104];
    assert(r@ =~= key_path());
    r
}

/// The key `root hash`.
pub open spec fn key_root_hash() -> Seq<u8> {
    seq![114u8, 111, 111, 116, 32, 104, 97, 115, 104]
}

pub(crate) fn root_hash_key() -> (r: Vec<u8>)
    ensures
        r@ == key_root_hash(),
{
    let r: Vec<u8> = vec![114u8, 111, 111, 116, 32, 104, 97, 115, 104];
    assert(r@ =~= key_root_hash());
    r
}

/// The key `meta version`.
pub open spec fn key_meta_version() -> Seq<u8> {
    seq![109u8, 101, 116, 97, 32, 118, 101, 114, 115, 105, 111, 110]
}

pub(crate) fn meta_version_key() -> (r: Vec<u8>)
    ensures
        r@ == key_meta_version(),
{
    let r: Vec<u8> = vec![109u8, 101, 116, 97, 32, 118, 101, 114, 115, 105, 111, 110];
    assert(r@ =~= key_meta_version());
    r
}

} // verus!
