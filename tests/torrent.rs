use algokit::torrent_file::{TorrentFile, TorrentMetadata};

const SAMPLE: &str = "d8:announce17:http://a.example/13:announce-listll17:http://a.example/el17:http://b.example/ee4:infod6:lengthi12345e4:name3:abc12:piece lengthi16384e6:pieces4:WXYZee";

fn sample() -> TorrentFile {
    TorrentFile::from_bytes(SAMPLE.as_bytes().to_vec())
}

#[test]
fn reads_number_fields() {
    let tf = sample();
    assert_eq!(tf.get_num_field_value("length"), 12345);
    assert_eq!(tf.get_num_field_value("piece length"), 16384);
    assert_eq!(tf.get_num_field_value("missing"), 0);
}

#[test]
fn unreadable_number_reads_as_zero() {
    let tf = TorrentFile::from_bytes(b"6:lengthixyze".to_vec());
    assert_eq!(tf.get_num_field_value("length"), 0);
    let tf = TorrentFile::from_bytes(b"6:lengthi+7e".to_vec());
    assert_eq!(tf.get_num_field_value("length"), 7);
    let tf = TorrentFile::from_bytes(b"6:lengthi99999999999999999999999e".to_vec());
    assert_eq!(tf.get_num_field_value("length"), 0);
}

#[test]
fn reads_pieces() {
    assert_eq!(sample().get_pieces(), b"WXYZ".to_vec());
    let short = TorrentFile::from_bytes(b"6:pieces9:ab".to_vec());
    assert_eq!(short.get_pieces(), Vec::<u8>::new());
    let none = TorrentFile::from_bytes(b"d4:name3:abce".to_vec());
    assert_eq!(none.get_pieces(), Vec::<u8>::new());
}

#[test]
fn reads_announce_list() {
    let a = sample().get_announces();
    assert_eq!(a, vec!["http://a.example/".to_string(), "http://b.example/".to_string()]);
    let none = TorrentFile::from_bytes(b"d8:announce3:abce".to_vec());
    assert!(none.get_announces().is_empty());
}

#[test]
fn reads_light_info() {
    let info = sample().get_light_info();
    assert_eq!(info, b"d6:lengthi12345e4:name3:abc12:piece lengthi16384e6:pieces4:WXYZe".to_vec());
    let none = TorrentFile::from_bytes(b"d4:name3:abce".to_vec());
    assert!(none.get_light_info().is_empty());
    let bare = TorrentFile::from_bytes(b"4:info".to_vec());
    assert!(bare.get_light_info().is_empty());
}

#[test]
fn metadata_gathers_fields() {
    let tf = sample();
    let md = TorrentMetadata::new(&tf);
    assert_eq!(md.length(), 12345);
    assert_eq!(md.piece_length(), 16384);
    assert_eq!(md.pieces(), &b"WXYZ".to_vec());
    assert_eq!(md.announces().len(), 2);
}
