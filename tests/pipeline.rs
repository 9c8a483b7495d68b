use torrent_announce::announce::{build_announce_url, percent_encode_all, AnnounceParams, ConfigurationError, Event};
use torrent_announce::info_hash::{hash_info_value, info_hash, LoadError};
use torrent_announce::metainfo::{project_metainfo, FileLayout, SchemaError};
use torrent_announce::codec::{decode, DEFAULT_MAX_DEPTH};
use torrent_announce::torrent::load_torrent;

const EXAMPLE: &[u8] = b"d8:announce31:http://tracker.example/announce4:infod6:lengthi1024e4:name8:test.txt12:piece lengthi16384e6:pieces20:AAAAAAAAAAAAAAAAAAAAee";
const EXAMPLE_HASH: &str = "2c3d2690295d1a792b615a8a990779f1e26e73c0";

fn params() -> AnnounceParams {
    AnnounceParams {
        peer_id: b"makethisuniqueplease".to_vec(),
        port: 6881,
        uploaded: 0,
        downloaded: 0,
        left: 524288,
        compact: true,
        event: Event::Started,
    }
}

#[test]
fn end_to_end_example() {
    let t = load_torrent(EXAMPLE).unwrap();
    assert_eq!(t.meta.info.name, "test.txt");
    assert_eq!(t.meta.info.piece_length, 16384);
    assert_eq!(t.meta.info.layout, FileLayout::Single { length: 1024 });
    assert_eq!(t.meta.info.pieces, vec![b'A'; 20]);
    assert_eq!(t.meta.announce.as_deref(), Some("http://tracker.example/announce"));
    assert_eq!(t.info_hash.hex, EXAMPLE_HASH);
    assert_eq!(t.info_hash.digest.len(), 20);
    assert_eq!(load_torrent(EXAMPLE).unwrap().info_hash, t.info_hash);
}

#[test]
fn announce_url_of_the_example() {
    let t = load_torrent(EXAMPLE).unwrap();
    let url = build_announce_url(&t, &params()).unwrap();
    assert_eq!(
        url,
        "http://tracker.example/announce?info_hash=%2C%3D%26%90%29%5D%1A%79%2B%61%5A%8A%99%07%79%F1%E2%6E%73%C0\
&peer_id=makethisuniqueplease&port=6881&uploaded=0&downloaded=0&left=524288&compact=1&event=started"
    );
}

#[test]
fn peer_id_is_percent_encoded_as_text() {
    let t = load_torrent(EXAMPLE).unwrap();
    let mut p = params();
    p.peer_id = b"-AB0001-a b~c/".to_vec();
    p.compact = false;
    p.event = Event::Completed;
    let url = build_announce_url(&t, &p).unwrap();
    assert!(url.contains("&peer_id=-AB0001-a%20b~c%2F&"));
    assert!(url.ends_with("&compact=0&event=completed"));
}

#[test]
fn missing_announce_is_a_configuration_error() {
    let buf = b"d4:infod6:lengthi1024e4:name8:test.txt12:piece lengthi16384e6:pieces20:AAAAAAAAAAAAAAAAAAAAee";
    let t = load_torrent(buf).unwrap();
    assert_eq!(t.meta.announce, None);
    assert_eq!(build_announce_url(&t, &params()), Err(ConfigurationError::NoAnnounceUrl));
}

#[test]
fn hash_ignores_what_lies_outside_info() {
    let other = b"d7:comment2:hi4:infod6:lengthi1024e4:name8:test.txt12:piece lengthi16384e6:pieces20:AAAAAAAAAAAAAAAAAAAAee";
    assert_eq!(info_hash(other).unwrap().hex, EXAMPLE_HASH);
    assert_eq!(info_hash(EXAMPLE).unwrap(), info_hash(EXAMPLE).unwrap());
}

#[test]
fn hash_reencodes_info_canonically() {
    let unsorted = b"d4:infod4:name8:test.txt6:lengthi1024e12:piece lengthi16384e6:pieces20:AAAAAAAAAAAAAAAAAAAAee";
    assert_eq!(info_hash(unsorted).unwrap().hex, EXAMPLE_HASH);
}

#[test]
fn hash_of_a_value() {
    let v = decode(b"i1e", DEFAULT_MAX_DEPTH).unwrap();
    let h = hash_info_value(&v);
    assert_eq!(h.hex, "1c9d0d26a5211fc7a715823784aaafaeaf7e88c7");
    assert_eq!(h.digest[0], 0x1c);
}

#[test]
fn info_hash_errors() {
    assert!(matches!(info_hash(b"5:ab"), Err(LoadError::Parse(_))));
    assert_eq!(info_hash(b"d1:ai1ee"), Err(LoadError::Schema(SchemaError::MissingKey("info"))));
    assert_eq!(info_hash(b"i1e"), Err(LoadError::Schema(SchemaError::NotAMapping("root"))));
}

#[test]
fn percent_encoding_round_trips_every_byte() {
    let raw: Vec<u8> = vec![0x41, 0x7e, 0x00, 0xff, 0x25, 0x26, b'z'];
    let enc = percent_encode_all(&raw);
    assert_eq!(String::from_utf8(enc.clone()).unwrap(), "%41%7E%00%FF%25%26%7A");
    let mut back = Vec::new();
    for chunk in enc.chunks(3) {
        assert_eq!(chunk[0], b'%');
        back.push(u8::from_str_radix(std::str::from_utf8(&chunk[1..]).unwrap(), 16).unwrap());
    }
    assert_eq!(back, raw);
}

#[test]
fn multi_file_layout() {
    let buf = b"d4:infod5:filesld6:lengthi5e4:pathl1:a1:beed6:lengthi7e6:md5sum3:abc4:pathl1:ceee4:name3:dir12:piece lengthi16e6:pieces0:ee";
    let t = load_torrent(buf).unwrap();
    match &t.meta.info.layout {
        FileLayout::Multi { files } => {
            assert_eq!(files.len(), 2);
            assert_eq!(files[0].path, vec!["a".to_string(), "b".to_string()]);
            assert_eq!(files[0].length, 5);
            assert_eq!(files[1].md5sum.as_deref(), Some("abc"));
        }
        _ => panic!("expected a multi-file layout"),
    }
}

#[test]
fn optional_root_fields() {
    let buf = b"d13:announce-listll1:ael1:b1:cee7:comment2:hi10:created by3:me113:creation datei1700000000e8:encoding5:UTF-89:httpseedsl1:he4:infod6:lengthi1e4:name1:n12:piece lengthi1e6:pieces0:e5:nodesll4:hosti6881eeee";
    let t = load_torrent(buf).unwrap();
    let m = &t.meta;
    assert_eq!(m.announce_list, Some(vec![vec!["a".to_string()], vec!["b".to_string(), "c".to_string()]]));
    assert_eq!(m.comment.as_deref(), Some("hi"));
    assert_eq!(m.created_by.as_deref(), Some("me1"));
    assert_eq!(m.creation_date, Some(1700000000));
    assert_eq!(m.encoding.as_deref(), Some("UTF-8"));
    assert_eq!(m.httpseeds, Some(vec!["h".to_string()]));
    let nodes = m.nodes.as_ref().unwrap();
    assert_eq!(nodes[0].host, "host");
    assert_eq!(nodes[0].port, 6881);
}

#[test]
fn schema_errors_name_the_key() {
    let missing_name = decode(b"d4:infod6:lengthi1e12:piece lengthi1e6:pieces0:ee", 8).unwrap();
    assert_eq!(project_metainfo(&missing_name).unwrap_err(), SchemaError::MissingKey("name"));
    let bad_pieces = decode(b"d4:infod6:lengthi1e4:name1:n12:piece lengthi1e6:piecesi3eee", 8).unwrap();
    assert_eq!(project_metainfo(&bad_pieces).unwrap_err(), SchemaError::WrongType("pieces"));
    let bad_plen = decode(b"d4:infod6:lengthi1e4:name1:n12:piece length1:x6:pieces0:ee", 8).unwrap();
    assert_eq!(project_metainfo(&bad_plen).unwrap_err(), SchemaError::WrongType("piece length"));
    let neither = decode(b"d4:infod4:name1:n12:piece lengthi1e6:pieces0:ee", 8).unwrap();
    assert_eq!(project_metainfo(&neither).unwrap_err(), SchemaError::NoFileLayout);
    let both = decode(b"d4:infod5:filesle6:lengthi1e4:name1:n12:piece lengthi1e6:pieces0:ee", 8).unwrap();
    assert_eq!(project_metainfo(&both).unwrap_err(), SchemaError::BothFileLayouts);
    let no_info = decode(b"d8:announce1:xe", 8).unwrap();
    assert_eq!(project_metainfo(&no_info).unwrap_err(), SchemaError::MissingKey("info"));
    let bad_name = decode(b"d4:infod6:lengthi1e4:name2:\xff\xfe12:piece lengthi1e6:pieces0:ee", 8).unwrap();
    assert_eq!(project_metainfo(&bad_name).unwrap_err(), SchemaError::WrongType("name"));
}

#[test]
fn unparsable_announce_is_refused() {
    let buf = b"d8:announce9:not a url4:infod6:lengthi1024e4:name8:test.txt12:piece lengthi16384e6:pieces20:AAAAAAAAAAAAAAAAAAAAee";
    let t = load_torrent(buf).unwrap();
    assert_eq!(build_announce_url(&t, &params()), Err(ConfigurationError::InvalidAnnounceUrl));
}

#[test]
fn announce_with_a_query_gets_an_ampersand() {
    let buf = b"d8:announce26:http://t.example/a?key=abc4:infod6:lengthi1024e4:name8:test.txt12:piece lengthi16384e6:pieces20:AAAAAAAAAAAAAAAAAAAAee";
    let t = load_torrent(buf).unwrap();
    let url = build_announce_url(&t, &params()).unwrap();
    assert!(url.starts_with("http://t.example/a?key=abc&info_hash=%2C%3D"));
}

#[test]
fn digest_of_wrong_length_is_refused() {
    let mut t = load_torrent(EXAMPLE).unwrap();
    t.info_hash.digest.clear();
    assert_eq!(build_announce_url(&t, &params()), Err(ConfigurationError::InvalidInfoHash));
}

#[test]
fn piece_fields_are_checked() {
    let zero = decode(b"d4:infod6:lengthi1e4:name1:n12:piece lengthi0e6:pieces0:ee", 8).unwrap();
    assert_eq!(project_metainfo(&zero).unwrap_err(), SchemaError::InvalidValue("piece length"));
    let short = decode(b"d4:infod6:lengthi1e4:name1:n12:piece lengthi1e6:pieces3:abcee", 8).unwrap();
    assert_eq!(project_metainfo(&short).unwrap_err(), SchemaError::InvalidValue("pieces"));
}

#[test]
fn private_flag_is_one_byte() {
    let ok = decode(b"d4:infod6:lengthi1e4:name1:n12:piece lengthi1e6:pieces0:7:privatei1eee", 8).unwrap();
    assert_eq!(project_metainfo(&ok).unwrap().info.private, Some(1));
    let bad = decode(b"d4:infod6:lengthi1e4:name1:n12:piece lengthi1e6:pieces0:7:privatei300eee", 8).unwrap();
    assert_eq!(project_metainfo(&bad).unwrap_err(), SchemaError::WrongType("private"));
}
