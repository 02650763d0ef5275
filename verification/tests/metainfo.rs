use rusty_torrents::bencode::{BEncodeType, Cursor, ParsedTorrent, TorrentInfo};

fn text(s: &str) -> Vec<u8> {
    let mut out = format!("{}:", s.len()).into_bytes();
    out.extend_from_slice(s.as_bytes());
    out
}

fn bytes(b: &[u8]) -> Vec<u8> {
    let mut out = format!("{}:", b.len()).into_bytes();
    out.extend_from_slice(b);
    out
}

fn number(n: i64) -> Vec<u8> {
    format!("i{}e", n).into_bytes()
}

fn list(items: Vec<Vec<u8>>) -> Vec<u8> {
    let mut out = vec![b'l'];
    for item in items {
        out.extend_from_slice(&item);
    }
    out.push(b'e');
    out
}

fn dict(entries: Vec<(&str, Vec<u8>)>) -> Vec<u8> {
    let mut out = vec![b'd'];
    for (key, value) in entries {
        out.extend_from_slice(&text(key));
        out.extend_from_slice(&value);
    }
    out.push(b'e');
    out
}

fn parse(data: &[u8]) -> Option<BEncodeType> {
    let mut cursor = Cursor::new(data);
    BEncodeType::try_parse_type(&mut cursor)
}

#[test]
fn fedora_torrent() {
    let info = dict(vec![
        (
            "files",
            list(vec![
                dict(vec![
                    ("length", number(1062)),
                    ("path", list(vec![text("Fedora-Workstation-37-1.7-x86_64-CHECKSUM")])),
                ]),
                dict(vec![
                    ("length", number(2037372928)),
                    ("path", list(vec![text("Fedora-Workstation-Live-x86_64-37-1.7.iso")])),
                ]),
            ]),
        ),
        ("name", text("Fedora-Workstation-Live-x86_64-37")),
        ("piece length", number(262144)),
        ("pieces", bytes(&vec![7u8; 7772 * 20])),
    ]);
    let file = dict(vec![
        ("announce", text("http://torrent.fedoraproject.org:6969/announce")),
        ("info", info),
    ]);
    let parsed = ParsedTorrent::new(file);

    assert_eq!(parsed.announce(), "http://torrent.fedoraproject.org:6969/announce");
    assert_eq!(parsed.info().files(), &[
        (String::from("Fedora-Workstation-Live-x86_64-37/Fedora-Workstation-37-1.7-x86_64-CHECKSUM"), 1062),
        (String::from("Fedora-Workstation-Live-x86_64-37/Fedora-Workstation-Live-x86_64-37-1.7.iso"), 2037372928),
    ]);
    assert_eq!(parsed.info().name(), "Fedora-Workstation-Live-x86_64-37");
    assert_eq!(parsed.info().piece_length(), 262144);

    assert_eq!(parsed.info().pieces().len(), 7772);
}

#[test]
fn ubuntu_torrent() {
    let info = dict(vec![
        ("length", number(4071903232)),
        ("name", text("ubuntu-22.10-desktop-amd64.iso")),
        ("piece length", number(262144)),
        ("pieces", bytes(&vec![9u8; 15534 * 20])),
    ]);
    let file = dict(vec![
        ("announce", text("https://torrent.ubuntu.com/announce")),
        (
            "announce-list",
            list(vec![
                list(vec![text("https://torrent.ubuntu.com/announce")]),
                list(vec![text("https://ipv6.torrent.ubuntu.com/announce")]),
            ]),
        ),
        ("info", info),
    ]);
    let parsed = ParsedTorrent::new(file);

    assert_eq!(parsed.announce(), "https://torrent.ubuntu.com/announce");
    assert_eq!(parsed.announce_list(), &vec![
        "https://torrent.ubuntu.com/announce",
        "https://ipv6.torrent.ubuntu.com/announce"
    ]);
    assert_eq!(parsed.info().files(), &[(String::from("ubuntu-22.10-desktop-amd64.iso"), 4071903232)]);
    assert_eq!(parsed.info().name(), "ubuntu-22.10-desktop-amd64.iso");
    assert_eq!(parsed.info().piece_length(), 262144);

    assert_eq!(parsed.info().pieces().len(), 15534);
}

#[test]
fn integers_are_signed() {
    assert_eq!(parse(b"i-42e").unwrap().as_integer(), -42);
    assert_eq!(parse(b"i+7e").unwrap().as_integer(), 7);
    assert_eq!(parse(b"i9223372036854775807e").unwrap().as_integer(), i64::MAX);
    assert_eq!(parse(b"i-9223372036854775808e").unwrap().as_integer(), i64::MIN);
    assert!(parse(b"i9223372036854775808e").is_none());
    assert!(parse(b"ie").is_none());
    assert!(parse(b"i-e").is_none());
    assert!(parse(b"i12").is_none());
}

#[test]
fn strings_keep_their_bytes() {
    let value = parse(b"4:spam").unwrap();
    assert_eq!(value.as_string(), "spam");
    assert_eq!(value.as_string_bytes(), b"spam");

    let binary = parse(&bytes(&[0xff, 0xfe])).unwrap();
    assert_eq!(binary.as_string(), "");
    assert_eq!(binary.as_string_bytes(), vec![0xff, 0xfe]);

    let accents = parse(&text("h\u{e9}")).unwrap();
    assert_eq!(accents.as_string(), "h\u{e9}");
    assert!(parse(b"5:spam").is_none());
    assert!(parse(b"4spam").is_none());
    assert!(parse(b"x:spam").is_none());
}

#[test]
fn lists_and_dictionaries_may_be_empty() {
    assert_eq!(parse(b"le").unwrap().as_list().len(), 0);
    let empty = parse(b"de").unwrap();
    assert_eq!(empty.as_dictionary().len(), 0);
    // SHA-1 of the two bytes `de`.
    assert_eq!(empty.as_dictionary_hash_str(), "600ccd1b71569232d01d110bc63e906beab04d8c");
    assert!(parse(b"l").is_none());
    assert!(parse(b"d1:ae").is_none());
    assert!(parse(b"").is_none());
}

#[test]
fn dictionary_digest_is_that_of_its_bytes() {
    let value = parse(b"d3:cow3:moo4:spam4:eggse").unwrap();
    let hash = value.as_dictionary_hash();
    let hex = value.as_dictionary_hash_str();
    let mut again = String::new();
    for byte in hash.iter() {
        again.push_str(&format!("{:02x}", byte));
    }
    assert_eq!(hex, again);
    assert_eq!(hex.len(), 40);
    assert_eq!(value.as_dictionary().get("cow").unwrap().as_string(), "moo");
    assert!(value.as_dictionary().get("dog").is_none());
}

#[test]
fn later_value_of_a_key_counts() {
    let value = parse(b"d1:ai1e1:bi2e1:ai3ee").unwrap();
    let entries = value.as_dictionary();
    assert_eq!(entries.len(), 2);
    assert_eq!(entries.get("a").unwrap().as_integer(), 3);
    assert_eq!(entries.get("b").unwrap().as_integer(), 2);
}

#[test]
fn what_follows_a_value_does_not_matter() {
    let mut cursor = Cursor::new(b"i5e3:abcjunk");
    assert_eq!(BEncodeType::parse_type(&mut cursor).as_integer(), 5);
    assert_eq!(cursor.position(), 3);
    assert_eq!(BEncodeType::parse_type(&mut cursor).as_string(), "abc");
    assert_eq!(cursor.position(), 8);
    cursor.set_position(0);
    assert_eq!(BEncodeType::parse_type(&mut cursor).as_integer(), 5);
}

#[test]
fn accessors_have_defaults() {
    let number = parse(b"i1e").unwrap();
    assert_eq!(number.as_string(), "");
    assert_eq!(number.as_string_bytes().len(), 0);
    assert_eq!(number.as_list().len(), 0);
    assert_eq!(number.as_dictionary().len(), 0);
    assert_eq!(number.as_dictionary_hash_str(), "");
    assert_eq!(parse(b"1:a").unwrap().as_integer(), 0);
    let copy = number.clone();
    assert_eq!(copy.as_integer(), 1);
}

#[test]
fn pieces_come_in_twenties() {
    let info = dict(vec![
        ("name", text("n")),
        ("piece length", number(1)),
        ("pieces", bytes(&(0u8..45).collect::<Vec<u8>>())),
    ]);
    let parsed = parse(&info).unwrap();
    let torrent = TorrentInfo::new(&parsed);
    assert_eq!(torrent.pieces().len(), 3);
    assert_eq!(torrent.pieces()[0], (0u8..20).collect::<Vec<u8>>());
    assert_eq!(torrent.pieces()[2], (40u8..45).collect::<Vec<u8>>());
    assert_eq!(torrent.length(), 0);
    assert_eq!(torrent.files(), &[(String::from("n"), 0)]);
    assert_eq!(torrent.info_hash(), &parsed.as_dictionary_hash());
    assert_eq!(torrent.info_hash_str(), parsed.as_dictionary_hash_str());
}

#[test]
fn negative_lengths_wrap() {
    let info = dict(vec![
        ("length", number(-1)),
        ("name", text("n")),
        ("piece length", number(1)),
        ("pieces", bytes(&[])),
    ]);
    let torrent = TorrentInfo::new(&parse(&info).unwrap());
    assert_eq!(torrent.length(), u64::MAX);
    assert_eq!(torrent.pieces().len(), 0);
}

#[test]
fn metainfo_without_what_it_needs_is_refused() {
    assert!(ParsedTorrent::try_new(b"i5e".to_vec()).is_none());
    assert!(ParsedTorrent::try_new(b"de".to_vec()).is_none());
    assert!(ParsedTorrent::try_new(dict(vec![("info", number(1))])).is_none());
    assert!(ParsedTorrent::try_new(dict(vec![("info", dict(vec![("name", text("n"))]))])).is_none());
    let no_path = dict(vec![
        ("files", list(vec![dict(vec![("length", number(1)), ("path", list(vec![]))])])),
        ("name", text("n")),
        ("piece length", number(1)),
        ("pieces", bytes(&[])),
    ]);
    assert!(ParsedTorrent::try_new(dict(vec![("info", no_path)])).is_none());
    let good = dict(vec![
        ("files", list(vec![dict(vec![("length", number(1))])])),
        ("name", text("n")),
        ("piece length", number(1)),
        ("pieces", bytes(&[])),
    ]);
    let parsed = ParsedTorrent::try_new(dict(vec![("info", good.clone())])).unwrap();
    assert_eq!(parsed.get_files().len(), 0);
    assert_eq!(parsed.get_name(), "n");
    assert_eq!(parsed.announce(), "");
    assert!(ParsedTorrent::try_new(dict(vec![
        ("announce-list", list(vec![list(vec![])])),
        ("info", good),
    ]))
    .is_none());
}

#[test]
fn values_are_read_one_at_a_time() {
    let first = dict(vec![("a", number(1))]);
    let second = list(vec![text("b"), number(-2)]);
    let mut data = first.clone();
    data.extend_from_slice(&second);
    let mut cursor = Cursor::new(&data);
    let value = BEncodeType::parse_type(&mut cursor);
    assert_eq!(cursor.position(), first.len());
    assert_eq!(value.as_dictionary_hash(), sha1_smol::Sha1::from(&first).digest().bytes());
    assert_eq!(value.as_dictionary_hash_str(), sha1_smol::Sha1::from(&first).hexdigest());
    let value = BEncodeType::parse_type(&mut cursor);
    assert_eq!(cursor.position(), data.len());
    assert_eq!(value.as_list()[1].as_integer(), -2);
}

#[test]
fn info_hash_is_that_of_its_bytes() {
    let info = dict(vec![
        ("piece length", number(4)),
        ("name", text("n")),
        ("pieces", bytes(&[7; 20])),
        ("length", number(3)),
    ]);
    let digest = sha1_smol::Sha1::from(&info).digest().bytes();
    let file = dict(vec![("announce", text("x")), ("info", info), ("z", number(1))]);
    assert_eq!(*ParsedTorrent::new(file).info().info_hash(), digest);
}
