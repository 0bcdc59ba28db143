use miktik_api::decoding::append_chunk;
use miktik_api::decoding::bytes_to_str;
use miktik_api::decoding::decode_reply;
use miktik_api::encoding::command_bytes;
use miktik_api::encoding::dec_to_hex;
use miktik_api::encoding::hexer;
use miktik_api::encoding::sentence_bytes;
use miktik_api::config::Queries;

fn query_with(words: Option<Vec<String>>) -> Queries {
    Queries {
        split_targets: None,
        split_character: None,
        graph_targets: None,
        attributes: None,
        query: words,
        separator: None,
        command: "/ping".to_string(),
        name: "ping".to_string(),
    }
}

#[test]
fn dec_to_hex_two_byte_lengths() {
    assert_eq!(dec_to_hex(1), vec![0x80, 0x01]);
    assert_eq!(dec_to_hex(128), vec![0x80, 0x80]);
    assert_eq!(dec_to_hex(300), vec![0x81, 0x2C]);
    assert_eq!(dec_to_hex(16383), vec![0xBF, 0xFF]);
}

#[test]
fn dec_to_hex_longer_lengths() {
    assert_eq!(dec_to_hex(16384), vec![0xC0, 0x40, 0x00]);
    assert_eq!(dec_to_hex(0x1F_FFFF), vec![0xDF, 0xFF, 0xFF]);
    assert_eq!(dec_to_hex(0x20_0000), vec![0xE0, 0x20, 0x00, 0x00]);
    assert_eq!(dec_to_hex(0x0FFF_FFFF), vec![0xEF, 0xFF, 0xFF, 0xFF]);
    assert_eq!(dec_to_hex(0x1000_0000), vec![0xF0, 0x10, 0x00, 0x00, 0x00]);
    assert_eq!(dec_to_hex(0x1234_5678), vec![0xF0, 0x12, 0x34, 0x56, 0x78]);
}

#[test]
fn hexer_short_word() {
    assert_eq!(hexer(b"abc", false), vec![3, b'a', b'b', b'c']);
    assert_eq!(hexer(b"abc", true), vec![3, b'a', b'b', b'c', 0]);
    assert_eq!(hexer(b"", false), vec![0]);
}

#[test]
fn hexer_long_word() {
    let word = vec![b'x'; 200];
    let out = hexer(&word, false);
    assert_eq!(out.len(), 202);
    assert_eq!(&out[..2], &[0x80, 200]);
    assert_eq!(&out[2..], &word[..]);
    let word = vec![b'y'; 127];
    let out = hexer(&word, true);
    assert_eq!(out[0], 127);
    assert_eq!(out.len(), 129);
    assert_eq!(out[128], 0);
}

#[test]
fn sentence_of_login() {
    let lines = vec!["/login".to_string(), "=name=admin".to_string()];
    let mut expected = vec![6u8];
    expected.extend_from_slice(b"/login");
    expected.push(11);
    expected.extend_from_slice(b"=name=admin");
    expected.push(0);
    assert_eq!(sentence_bytes(&lines), expected);
    assert_eq!(sentence_bytes(&vec![]), vec![0]);
}

#[test]
fn command_with_extra_words() {
    let q = query_with(Some(vec!["=count=1".to_string()]));
    let mut expected = vec![5u8];
    expected.extend_from_slice(b"/ping");
    expected.push(8);
    expected.extend_from_slice(b"=count=1");
    expected.push(0);
    assert_eq!(command_bytes(&vec!["/ping".to_string()], &q), expected);
    let q = query_with(None);
    assert_eq!(command_bytes(&vec!["/ping".to_string()], &q), vec![5, b'/', b'p', b'i', b'n', b'g', 0]);
}

#[test]
fn decode_reply_words_and_attributes() {
    let mut bytes = vec![3u8];
    bytes.extend_from_slice(b"!re");
    bytes.push(4);
    bytes.extend_from_slice(b"=a=b");
    bytes.push(0);
    assert_eq!(decode_reply(&bytes), Some("!re\na=b".to_string()));
    bytes.push(5);
    bytes.extend_from_slice(b"!done");
    bytes.push(0);
    assert_eq!(decode_reply(&bytes), Some("!re\na=b\n!done".to_string()));
    assert_eq!(bytes_to_str(&bytes), "!re\na=b\n!done".to_string());
}

#[test]
fn decode_reply_two_byte_length() {
    let mut bytes = vec![0x80u8, 130];
    bytes.push(b'=');
    bytes.extend_from_slice(&vec![b'k'; 129]);
    bytes.push(0);
    let text = decode_reply(&bytes).unwrap();
    assert_eq!(text, format!("\n{}", "k".repeat(129)));
}

#[test]
fn decode_reply_utf8_words() {
    let bytes = vec![2u8, 0xC3, 0xA9, 0];
    assert_eq!(decode_reply(&bytes), Some("é".to_string()));
    let bytes = vec![2u8, 0xC3, 0x28, 1, b'z', 0];
    assert_eq!(decode_reply(&bytes), Some("z".to_string()));
}

#[test]
fn decode_reply_malformed() {
    assert_eq!(decode_reply(&[5, b'a']), None);
    assert_eq!(decode_reply(&[0x80]), None);
    assert_eq!(decode_reply(&[3]), None);
    assert_eq!(decode_reply(&[0x80, 0, b'=']), None);
    assert_eq!(decode_reply(&[2, 0xF8, 0xF9]), None);
    assert_eq!(decode_reply(&[]), Some(String::new()));
    assert_eq!(decode_reply(&[0, 0]), Some("\n".to_string()));
}

#[test]
fn read_back_of_a_written_sentence() {
    let lines = vec!["!re".to_string(), "=name=ether1".to_string(), "=".to_string()];
    let bytes = sentence_bytes(&lines);
    assert_eq!(decode_reply(&bytes), Some("!re\nname=ether1\n".to_string()));
}

#[test]
fn chunks_end_a_reply() {
    let mut reply = Vec::new();
    let long = vec![7u8; 20];
    assert!(!append_chunk(&mut reply, &long));
    assert_eq!(reply.len(), 20);
    let mut done = vec![1u8, 2, 3];
    done.extend_from_slice(&[5, 33, 100, 111, 110, 101, 0]);
    assert!(append_chunk(&mut reply, &done));
    assert_eq!(reply.len(), 30);
    assert!(append_chunk(&mut reply, &[1, 2, 3, 4, 5, 6, 7]));
    assert!(append_chunk(&mut reply, &[]));
    assert_eq!(reply.len(), 37);
}

#[test]
fn long_words_read_back() {
    let word = vec![b'q'; 20000];
    let encoded = hexer(&word, true);
    assert_eq!(&encoded[..3], &[0xC0, 0x4E, 0x20]);
    assert_eq!(bytes_to_str(&encoded), "q".repeat(20000));
    let mut attr = vec![b'='];
    attr.extend_from_slice(&vec![b'v'; 0x20_0000]);
    let encoded = hexer(&attr, true);
    assert_eq!(&encoded[..4], &[0xE0, 0x20, 0x00, 0x01]);
    assert_eq!(decode_reply(&encoded), Some(format!("\n{}", "v".repeat(0x20_0000))));
    let mut five = vec![0xF0u8, 0x00, 0x00, 0x00, 0x02];
    five.extend_from_slice(b"ok");
    five.push(0);
    assert_eq!(decode_reply(&five), Some("ok".to_string()));
    assert_eq!(decode_reply(&[0xC0, 0x00]), None);
}
