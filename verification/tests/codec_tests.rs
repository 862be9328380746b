use dirlist::codec::{decode_bytes, encode_link, encode_segment};

fn enc(s: &[u8]) -> Vec<u8> {
    encode_segment(&s.to_vec())
}

fn dec(s: &[u8]) -> Vec<u8> {
    decode_bytes(&s.to_vec())
}

#[test]
fn encode_plain_name_unchanged() {
    assert_eq!(enc(b"notes.txt"), b"notes.txt".to_vec());
}

#[test]
fn encode_space_hash_question() {
    assert_eq!(enc(b"v1 final.md"), b"v1%20final.md".to_vec());
    assert_eq!(enc(b"a#b"), b"a%23b".to_vec());
    assert_eq!(enc(b"a?b"), b"a%3Fb".to_vec());
}

#[test]
fn encode_other_special_characters() {
    assert_eq!(enc(b"\x00\x1f\x7f"), b"%00%1F%7F".to_vec());
    assert_eq!(enc(b"a\"b"), b"a%22b".to_vec());
    assert_eq!(enc(b"a<b>c"), b"a%3Cb%3Ec".to_vec());
    assert_eq!(enc(b"a`b"), b"a%60b".to_vec());
    assert_eq!(enc(b"a{b}c"), b"a%7Bb%7Dc".to_vec());
    assert_eq!(enc(b"a\\b"), b"a%5Cb".to_vec());
}

#[test]
fn encode_passes_multibyte_text_through() {
    // UTF-8 for a non-ASCII name stays readable in the link.
    let name = "caf\u{e9}".as_bytes();
    assert_eq!(enc(name), name.to_vec());
}

#[test]
fn decode_escape_triples() {
    assert_eq!(dec(b"v1%20final.md"), b"v1 final.md".to_vec());
    assert_eq!(dec(b"%41%62c"), b"Abc".to_vec());
    // Lower-case hex decodes too.
    assert_eq!(dec(b"%2f"), b"/".to_vec());
}

#[test]
fn decode_keeps_malformed_escapes() {
    assert_eq!(dec(b"100%"), b"100%".to_vec());
    assert_eq!(dec(b"%zz"), b"%zz".to_vec());
    assert_eq!(dec(b"%4"), b"%4".to_vec());
    assert_eq!(dec(b"%%41"), b"%A".to_vec());
}

#[test]
fn round_trip_over_special_and_multibyte_names() {
    let cases: Vec<Vec<u8>> = vec![
        b"v1 final.md".to_vec(),
        b"a#b?c d".to_vec(),
        b"plain".to_vec(),
        b"\"<>`{}\\".to_vec(),
        "caf\u{e9} na\u{ef}ve \u{1f600}".as_bytes().to_vec(),
        b"".to_vec(),
        b"100%".to_vec(),
        b"%x".to_vec(),
    ];
    for seg in cases {
        assert_eq!(dec(&enc(&seg)), seg);
    }
}

#[test]
fn link_joins_encoded_segments_with_slash() {
    let rel = vec![b"drafts".to_vec()];
    assert_eq!(
        encode_link(&rel, &b"v1 final.md".to_vec()),
        b"drafts/v1%20final.md".to_vec()
    );
    let deep = vec![b"a b".to_vec(), b"c#d".to_vec()];
    assert_eq!(encode_link(&deep, &b"e".to_vec()), b"a%20b/c%23d/e".to_vec());
    assert_eq!(encode_link(&Vec::new(), &b"notes.txt".to_vec()), b"notes.txt".to_vec());
}

#[test]
fn encode_agrees_with_percent_encoding_crate_on_ascii() {
    // The same escape set, built with the percent-encoding crate; on
    // ASCII input the two encoders must agree byte for byte.
    const SET: &percent_encoding::AsciiSet = &percent_encoding::CONTROLS
        .add(b' ')
        .add(b'"')
        .add(b'<')
        .add(b'>')
        .add(b'`')
        .add(b'#')
        .add(b'?')
        .add(b'{')
        .add(b'}')
        .add(b'\\');
    for b in 0u8..0x80 {
        let mine = enc(&[b]);
        let theirs = percent_encoding::percent_encode(&[b], SET).to_string();
        assert_eq!(mine, theirs.as_bytes().to_vec());
    }
}

#[test]
fn decode_agrees_with_percent_encoding_crate() {
    let cases: Vec<&[u8]> = vec![b"v1%20final.md", b"a%23b%3f", b"100%", b"%zz%4", b"%2F%2f"];
    for s in cases {
        let mine = dec(s);
        let theirs: Vec<u8> =
            percent_encoding::percent_decode(s).collect();
        assert_eq!(mine, theirs);
    }
}
