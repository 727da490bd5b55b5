use libdottorrent::bencode::{decode, encode, DecodeError, Value};
use libdottorrent::torrent::{inspect, File, Info, Torrent};

fn pieces20() -> Vec<u8> {
    (0u8..20).collect()
}

fn single_file_bytes() -> Vec<u8> {
    let mut b = b"d8:announce12:http://a.com4:infod6:lengthi1024e4:name8:test.txt12:piece lengthi16384e6:pieces20:".to_vec();
    b.extend(pieces20());
    b.extend(b"ee");
    b
}

fn info_dict_bytes() -> Vec<u8> {
    let mut b = b"d6:lengthi1024e4:name8:test.txt12:piece lengthi16384e6:pieces20:".to_vec();
    b.extend(pieces20());
    b.push(b'e');
    b
}

fn wrap_info(info: &[u8]) -> Vec<u8> {
    let mut b = b"d4:info".to_vec();
    b.extend_from_slice(info);
    b.push(b'e');
    b
}

fn plain_info(name: &[u8], pieces: Vec<u8>) -> Info {
    Info {
        name: name.to_vec(),
        pieces,
        piece_length: 16384,
        md5sum: None,
        length: None,
        files: None,
        private: None,
        path: None,
        root_hash: None,
        meta_version: None,
    }
}

fn plain_torrent(info: Info) -> Torrent {
    Torrent {
        info,
        announce: None,
        nodes: None,
        encoding: None,
        httpseeds: None,
        announce_list: None,
        creation_date: None,
        comment: None,
        created_by: None,
    }
}

#[test]
fn end_to_end_single_file() {
    let t = Torrent::from_bytes(&single_file_bytes()).unwrap();
    assert_eq!(t.announce, Some(b"http://a.com".to_vec()));
    assert_eq!(t.info.length, Some(1024));
    assert_eq!(t.info.name, b"test.txt".to_vec());
    assert_eq!(t.info.piece_length, 16384);
    assert_eq!(t.info.pieces, pieces20());
    assert!(t.info.files.is_none());
    assert_eq!(t.total_size(), 1024);
    assert_eq!(t.files_count(), 1);
    assert_eq!(t.pieces_count(), 1);
    assert!(!t.is_single());
    assert_eq!(t.info.encode_canonical(), info_dict_bytes());
    assert_eq!(t.sha1(), "8afda75d493267b5eeb3e3b6b8e954dd0686242b");
    assert_eq!(t.md5(), "317678a5021825c55c350ccb84e852bf");
}

#[test]
fn inspect_single_file_summary() {
    let (t, s) = inspect(&single_file_bytes()).unwrap();
    assert_eq!(t.info.name, b"test.txt".to_vec());
    assert_eq!(s.total_size, 1024);
    assert_eq!(s.files_count, 1);
    assert_eq!(s.pieces_count, 1);
    assert!(!s.is_single);
    assert_eq!(s.sha1, "8afda75d493267b5eeb3e3b6b8e954dd0686242b");
    assert_eq!(s.md5, "317678a5021825c55c350ccb84e852bf");
}

#[test]
fn malformed_input_is_syntax_error() {
    assert_eq!(Torrent::from_bytes(b"not-bencode").unwrap_err(), DecodeError::Syntax);
    assert!(inspect(b"not-bencode").is_none());
}

#[test]
fn empty_input_is_truncated() {
    assert_eq!(Torrent::from_bytes(b"").unwrap_err(), DecodeError::Truncated);
    assert!(inspect(b"").is_none());
}

#[test]
fn open_structures_are_truncated() {
    assert_eq!(decode(b"d4:info").unwrap_err(), DecodeError::Truncated);
    assert_eq!(decode(b"i12").unwrap_err(), DecodeError::Truncated);
    assert_eq!(decode(b"5:ab").unwrap_err(), DecodeError::Truncated);
    assert_eq!(decode(b"l1:a").unwrap_err(), DecodeError::Truncated);
}

#[test]
fn malformed_numbers_are_syntax_errors() {
    assert_eq!(decode(b"i-0e").unwrap_err(), DecodeError::Syntax);
    assert_eq!(decode(b"i03e").unwrap_err(), DecodeError::Syntax);
    assert_eq!(decode(b"ie").unwrap_err(), DecodeError::Syntax);
    assert_eq!(decode(b"i1x").unwrap_err(), DecodeError::Syntax);
    assert_eq!(decode(b"i9223372036854775808e").unwrap_err(), DecodeError::Syntax);
    assert_eq!(decode(b"3xabc").unwrap_err(), DecodeError::Syntax);
}

#[test]
fn trailing_bytes_are_syntax_errors() {
    assert_eq!(decode(b"i1ei2e").unwrap_err(), DecodeError::Syntax);
}

#[test]
fn integer_extremes_decode() {
    match decode(b"i-9223372036854775808e").unwrap() {
        Value::Int(n) => assert_eq!(n, i64::MIN),
        other => panic!("unexpected {:?}", other),
    }
    match decode(b"i9223372036854775807e").unwrap() {
        Value::Int(n) => assert_eq!(n, i64::MAX),
        other => panic!("unexpected {:?}", other),
    }
}

#[test]
fn value_encoding_is_exact() {
    let v = Value::List(vec![
        Value::Int(-3),
        Value::Bytes(b"ab".to_vec()),
        Value::Dict(vec![(b"k".to_vec(), Value::Int(0))]),
        Value::List(vec![]),
    ]);
    assert_eq!(encode(&v), b"li-3e2:abd1:ki0eelee".to_vec());
}

#[test]
fn value_decode_then_encode_reproduces_bytes() {
    let input = b"d3:zzzi1e3:aaal0:i42eee".to_vec();
    let v = decode(&input).unwrap();
    assert_eq!(encode(&v), input);
}

#[test]
fn missing_name_is_rejected() {
    let mut info = b"d12:piece lengthi4e6:pieces20:".to_vec();
    info.extend(pieces20());
    info.push(b'e');
    assert_eq!(Torrent::from_bytes(&wrap_info(&info)).unwrap_err(), DecodeError::MissingField);
}

#[test]
fn missing_pieces_is_rejected() {
    let info = b"d4:name1:x12:piece lengthi4ee".to_vec();
    assert_eq!(Torrent::from_bytes(&wrap_info(&info)).unwrap_err(), DecodeError::MissingField);
}

#[test]
fn missing_piece_length_is_rejected() {
    let mut info = b"d4:name1:x6:pieces20:".to_vec();
    info.extend(pieces20());
    info.push(b'e');
    assert_eq!(Torrent::from_bytes(&wrap_info(&info)).unwrap_err(), DecodeError::MissingField);
}

#[test]
fn missing_info_is_rejected() {
    assert_eq!(Torrent::from_bytes(b"d8:announce1:xe").unwrap_err(), DecodeError::MissingField);
}

#[test]
fn wrong_field_kind_is_type_mismatch() {
    let mut info = b"d4:namei7e12:piece lengthi4e6:pieces20:".to_vec();
    info.extend(pieces20());
    info.push(b'e');
    assert_eq!(Torrent::from_bytes(&wrap_info(&info)).unwrap_err(), DecodeError::TypeMismatch);
    assert_eq!(Torrent::from_bytes(b"li1ee").unwrap_err(), DecodeError::TypeMismatch);
}

fn multi_file_info_bytes() -> Vec<u8> {
    let mut b = b"d5:filesld6:lengthi3e4:pathl1:aeed6:lengthi5e6:md5sum3:xyz4:pathl1:b1:ceee4:name3:dir12:piece lengthi4e6:pieces20:".to_vec();
    b.extend(pieces20());
    b.push(b'e');
    b
}

#[test]
fn multi_file_size_is_sum_of_lengths() {
    let t = Torrent::from_bytes(&wrap_info(&multi_file_info_bytes())).unwrap();
    let files = t.info.files.as_ref().unwrap();
    assert_eq!(files.len(), 2);
    assert_eq!(files[1].path, vec![b"b".to_vec(), b"c".to_vec()]);
    assert_eq!(files[1].md5sum, Some(b"xyz".to_vec()));
    assert_eq!(t.total_size(), 8);
    assert_eq!(t.files_count(), 2);
    assert!(t.is_single());
    assert_eq!(t.info.encode_canonical(), multi_file_info_bytes());
    assert_eq!(t.sha1(), "58b4775e1ebfdb31bb6e874ae86d8d7bc117eed0");
}

#[test]
fn large_file_sizes_do_not_overflow() {
    let mut info = plain_info(b"big", pieces20());
    let files: Vec<File> = (0..3)
        .map(|_| File { path: vec![b"f".to_vec()], length: i64::MAX, md5sum: None })
        .collect();
    info.files = Some(files);
    let t = plain_torrent(info);
    assert_eq!(t.total_size(), 3 * (i64::MAX as u128));
}

#[test]
fn empty_file_list_has_zero_size() {
    let mut info = plain_info(b"e", pieces20());
    info.files = Some(vec![]);
    info.length = Some(99);
    let t = plain_torrent(info);
    assert_eq!(t.total_size(), 0);
    assert_eq!(t.files_count(), 0);
    assert!(t.is_single());
}

#[test]
fn no_length_and_no_files_gives_zero() {
    let t = plain_torrent(plain_info(b"n", pieces20()));
    assert_eq!(t.total_size(), 0);
    assert_eq!(t.files_count(), 0);
    assert!(!t.is_single());
}

#[test]
fn pieces_count_floors() {
    assert_eq!(plain_torrent(plain_info(b"p", vec![0; 40])).pieces_count(), 2);
    assert_eq!(plain_torrent(plain_info(b"p", vec![0; 45])).pieces_count(), 2);
    assert_eq!(plain_torrent(plain_info(b"p", vec![0; 19])).pieces_count(), 0);
    assert_eq!(plain_torrent(plain_info(b"p", vec![])).pieces_count(), 0);
}

#[test]
fn info_round_trips_through_bytes() {
    let mut info = plain_info(b"round", pieces20());
    info.md5sum = Some(b"abc".to_vec());
    info.length = Some(77);
    info.private = Some(1);
    info.path = Some(vec![b"x".to_vec(), b"y".to_vec()]);
    info.root_hash = Some(b"rh".to_vec());
    info.meta_version = Some(2);
    let bytes = info.encode_canonical();
    let t = Torrent::from_bytes(&wrap_info(&bytes)).unwrap();
    assert_eq!(t.info.name, info.name);
    assert_eq!(t.info.pieces, info.pieces);
    assert_eq!(t.info.piece_length, info.piece_length);
    assert_eq!(t.info.md5sum, info.md5sum);
    assert_eq!(t.info.length, info.length);
    assert!(t.info.files.is_none());
    assert_eq!(t.info.private, info.private);
    assert_eq!(t.info.path, info.path);
    assert_eq!(t.info.root_hash, info.root_hash);
    assert_eq!(t.info.meta_version, info.meta_version);
    assert_eq!(t.info.encode_canonical(), bytes);
}

#[test]
fn digests_ignore_top_level_fields() {
    let a = Torrent::from_bytes(&single_file_bytes()).unwrap();
    let mut other = b"d7:comment2:hi4:info".to_vec();
    other.extend(info_dict_bytes());
    other.extend(b"13:creation datei5ee");
    let b = Torrent::from_bytes(&other).unwrap();
    assert_eq!(b.comment, Some(b"hi".to_vec()));
    assert_eq!(b.creation_date, Some(5));
    assert_eq!(a.sha1(), b.sha1());
    assert_eq!(a.md5(), b.md5());
    assert_eq!(a.sha1(), a.sha1());
}

#[test]
fn optional_top_level_fields_decode() {
    let mut b = b"d13:announce-listll1:ael1:b1:cee10:created by2:me8:encoding5:UTF-89:httpseedsl2:h1e4:info".to_vec();
    b.extend(info_dict_bytes());
    b.extend(b"5:nodesll4:hosti6881eeee");
    let t = Torrent::from_bytes(&b).unwrap();
    let tiers = t.announce_list.as_ref().unwrap();
    assert_eq!(tiers.len(), 2);
    assert_eq!(tiers[1], vec![b"b".to_vec(), b"c".to_vec()]);
    assert_eq!(t.created_by, Some(b"me".to_vec()));
    assert_eq!(t.encoding, Some(b"UTF-8".to_vec()));
    assert_eq!(t.httpseeds, Some(vec![b"h1".to_vec()]));
    let nodes = t.nodes.as_ref().unwrap();
    assert_eq!(nodes[0].0, b"host".to_vec());
    assert_eq!(nodes[0].1, 6881);
    assert!(t.announce.is_none());
    assert!(t.comment.is_none());
}

#[test]
fn unknown_keys_are_ignored_and_first_duplicate_wins() {
    let mut b = b"d5:extrali1ee4:info".to_vec();
    b.extend(info_dict_bytes());
    b.extend(b"8:announce1:x8:announce1:ye");
    let t = Torrent::from_bytes(&b).unwrap();
    assert_eq!(t.announce, Some(b"x".to_vec()));
}

#[test]
fn negative_length_is_type_mismatch() {
    let info = b"d6:lengthi-1e4:name1:x12:piece lengthi4e6:pieces0:e".to_vec();
    let bytes = wrap_info(&info);
    assert_eq!(Torrent::from_bytes(&bytes).unwrap_err(), DecodeError::TypeMismatch);
    assert!(inspect(&bytes).is_none());
}

#[test]
fn missing_fields_in_reviewed_shapes() {
    assert_eq!(
        Torrent::from_bytes(b"d4:infod12:piece lengthi16384e6:pieces0:ee").unwrap_err(),
        DecodeError::MissingField
    );
    assert_eq!(
        Torrent::from_bytes(b"d4:infod4:name1:x12:piece lengthi16384eee").unwrap_err(),
        DecodeError::MissingField
    );
    assert_eq!(
        Torrent::from_bytes(b"d4:infod4:name1:x6:pieces0:ee").unwrap_err(),
        DecodeError::MissingField
    );
    assert_eq!(Torrent::from_bytes(b"d4:infod4:name1:x").unwrap_err(), DecodeError::Truncated);
    assert_eq!(
        Torrent::from_bytes(b"d4:infod4:namei5e12:piece lengthi16384e6:pieces0:ee").unwrap_err(),
        DecodeError::TypeMismatch
    );
}

#[test]
fn digest_texts_are_lowercase_hex_of_fixed_length() {
    let t = Torrent::from_bytes(&single_file_bytes()).unwrap();
    let sha = t.sha1();
    let md = t.md5();
    assert_eq!(sha.len(), 40);
    assert_eq!(md.len(), 32);
    assert!(sha.chars().chain(md.chars()).all(|c| c.is_ascii_digit() || ('a'..='f').contains(&c)));
}

#[test]
fn file_entry_without_length_is_type_mismatch() {
    let mut info = b"d5:filesld4:pathl1:aeee4:name1:x12:piece lengthi4e6:pieces20:".to_vec();
    info.extend(pieces20());
    info.push(b'e');
    assert_eq!(Torrent::from_bytes(&wrap_info(&info)).unwrap_err(), DecodeError::TypeMismatch);
}

#[test]
fn private_flag_out_of_range_is_type_mismatch() {
    let mut info = b"d4:name1:x12:piece lengthi4e6:pieces20:".to_vec();
    info.extend(pieces20());
    info.extend(b"7:privatei256ee");
    assert_eq!(Torrent::from_bytes(&wrap_info(&info)).unwrap_err(), DecodeError::TypeMismatch);
    let mut ok = b"d4:name1:x12:piece lengthi4e6:pieces20:".to_vec();
    ok.extend(pieces20());
    ok.extend(b"7:privatei1ee");
    assert_eq!(Torrent::from_bytes(&wrap_info(&ok)).unwrap().info.private, Some(1));
}

#[test]
fn hand_built_negative_length_is_detected() {
    let mut info = plain_info(b"neg", pieces20());
    info.length = Some(-5);
    assert!(!plain_torrent(info).has_valid_lengths());
    let mut ok = plain_info(b"pos", pieces20());
    ok.files = Some(vec![File { path: vec![b"a".to_vec()], length: 0, md5sum: None }]);
    assert!(plain_torrent(ok).has_valid_lengths());
}
