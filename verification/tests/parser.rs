use rusty_torrents::parser::{BEncodeType, ParsedTorrent};

fn text(s: &str) -> Vec<u8> {
    let mut out = format!("{}:", s.len()).into_bytes();
    out.extend_from_slice(s.as_bytes());
    out
}

#[test]
fn parser_reads_strings_byte_by_byte() {
    let mut position = 0;
    let value = BEncodeType::string(b"3:a\xe9b9", &mut position);
    assert_eq!(position, 5);
    assert_eq!(value.get_string(), "a\u{e9}b");
    assert_eq!(value.get_string_bytes(), b"a\xe9b");
    assert_eq!(value.get_int(), u64::MAX);
    assert_eq!(value.get_list().len(), 0);
    assert_eq!(value.get_dictionary().len(), 0);
    assert_eq!(value.get_dictionary_hash(), [0; 20]);
    let mut position = 0;
    assert!(BEncodeType::try_string(b"9:abc", &mut position).is_none());
}

#[test]
fn parser_reads_numbers_without_sign() {
    let mut position = 1;
    assert_eq!(BEncodeType::integer(b"i18446744073709551615e", &mut position).get_int(), u64::MAX);
    assert_eq!(position, 22);
    let mut position = 1;
    assert!(BEncodeType::try_integer(b"i-1e", &mut position).is_none());
    let mut position = 1;
    assert!(BEncodeType::try_integer(b"i18446744073709551616e", &mut position).is_none());
    let mut position = 1;
    assert_eq!(BEncodeType::integer(b"i0e", &mut position).get_string(), "");
}

#[test]
fn parser_lists_hold_something() {
    let mut position = 1;
    let value = BEncodeType::list(b"li1e1:ae", &mut position);
    assert_eq!(position, 8);
    let items = value.get_list();
    assert_eq!(items.len(), 2);
    assert_eq!(items[0].get_int(), 1);
    assert_eq!(items[1].get_string(), "a");
    let mut position = 1;
    assert!(BEncodeType::try_list(b"le", &mut position).is_none());
    let mut position = 1;
    assert!(BEncodeType::try_list(b"li1e", &mut position).is_none());
}

#[test]
fn parser_dictionaries_have_digests() {
    let mut position = 1;
    let value = BEncodeType::dictionary(b"d1:ai1e1:bl1:xe1:ai2ee", &mut position);
    assert_eq!(position, 22);
    let entries = value.get_dictionary();
    assert_eq!(entries.len(), 2);
    assert_eq!(entries.get("a").unwrap().get_int(), 2);
    assert_eq!(entries.get("b").unwrap().get_list()[0].get_string(), "x");
    let digest = sha1_smol::Sha1::from(b"d1:ai1e1:bl1:xe1:ai2ee").digest().bytes();
    assert_eq!(value.get_dictionary_hash(), digest);
    let mut position = 0;
    assert!(BEncodeType::try_dictionary(b"1:ai1ee", &mut position).is_none());
    let mut position = 1;
    assert!(BEncodeType::try_dictionary(b"de", &mut position).is_none());
}

#[test]
fn parser_digest_begins_at_the_low_position() {
    // The position behind the `d` is 65537 here, of which the low half is one.
    let mut data = vec![b'x'; 65536];
    data.extend_from_slice(b"d1:ai1ee");
    let mut position = 65537;
    let value = BEncodeType::dictionary(&data, &mut position);
    let digest = sha1_smol::Sha1::from(&data).digest().bytes();
    assert_eq!(value.get_dictionary_hash(), digest);
    let mut data = vec![b'x'; 65535];
    data.extend_from_slice(b"d1:ai1ee");
    let mut position = 65536;
    assert!(BEncodeType::try_dictionary(&data, &mut position).is_none());
}

fn metainfo(files: bool) -> Vec<u8> {
    let mut info = b"d".to_vec();
    if files {
        info.extend_from_slice(b"5:filesld6:lengthi7e4:pathl1:fee");
        info.extend_from_slice(b"d6:lengthi8eee");
    } else {
        info.extend_from_slice(b"6:lengthi9e");
    }
    info.extend_from_slice(b"4:name1:n12:piece lengthi4e6:pieces20:01234567890123456789e");
    let mut data = b"d".to_vec();
    data.extend_from_slice(&text("announce"));
    data.extend_from_slice(&text("http://a"));
    data.extend_from_slice(&text("announce-list"));
    data.extend_from_slice(b"l8:http://bl1:cee");
    data.extend_from_slice(&text("creation date"));
    data.extend_from_slice(&text("today"));
    data.extend_from_slice(&text("info"));
    data.extend_from_slice(&info);
    data.push(b'e');
    data
}

#[test]
fn parser_reads_metainfo() {
    let torrent = ParsedTorrent::new(metainfo(true));
    assert_eq!(torrent.announce(), "http://a");
    assert_eq!(torrent.announce_list(), &vec!["http://b", ""]);
    assert_eq!(torrent.creation_date(), "today");
    assert_eq!(torrent.get_name(), "n");
    assert_eq!(torrent.get_files(), &vec![(String::from("n/f"), 7)]);
    assert_eq!(torrent.info().name(), "n");
    assert_eq!(torrent.info().length(), 0);
    assert_eq!(torrent.info().piece_length(), 4);
    assert_eq!(torrent.info().pieces(), &[b"01234567890123456789".to_vec()]);
    assert_ne!(torrent.info().info_hash(), &[0; 20]);

    let single = ParsedTorrent::new(metainfo(false));
    assert_eq!(single.info().files(), &[(String::from("n"), 9)]);
    assert_eq!(single.info().length(), 9);
}

#[test]
fn parser_refuses_what_is_no_metainfo() {
    assert!(ParsedTorrent::try_new(Vec::new()).is_none());
    assert!(ParsedTorrent::try_new(b"l1:ae".to_vec()).is_none());
    assert!(ParsedTorrent::try_new(b"d1:a1:be".to_vec()).is_none());
    assert!(ParsedTorrent::try_new(b"d4:infoi1ee".to_vec()).is_none());
}

#[test]
fn parser_digests_do_not_depend_on_what_is_around() {
    let dictionary = b"d1:ad1:bi1eee".to_vec();
    let digest = sha1_smol::Sha1::from(&dictionary).digest().bytes();
    for pad in [0, 1, 700, 65000, 65534 - 5] {
        let mut data = vec![b'x'; pad];
        data.extend_from_slice(&dictionary);
        data.extend_from_slice(&vec![b'y'; 100]);
        let mut position = pad + 1;
        let value = BEncodeType::dictionary(&data, &mut position);
        assert_eq!(value.get_dictionary_hash(), digest);
        assert_eq!(position, pad + dictionary.len());
        let inner = value.entry("a").unwrap();
        assert_eq!(inner.entry("b").unwrap().get_int(), 1);
    }
    // The first key of the inner dictionary would stand at a multiple of 65536.
    let mut data = vec![b'x'; 65536 - 5];
    data.extend_from_slice(&dictionary);
    assert!(BEncodeType::try_dictionary(&data, &mut (65536 - 4)).is_none());
}
