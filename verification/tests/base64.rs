use engine_io::base64::{decode, encode};
use rustc_serialize::base64::{CharacterSet, Config, Newline, ToBase64};

fn url_safe_padded() -> Config {
    Config { char_set: CharacterSet::UrlSafe, newline: Newline::LF, pad: true, line_length: None }
}

#[test]
fn known_vectors() {
    assert_eq!(encode(b""), b"".to_vec());
    assert_eq!(encode(b"M"), b"TQ==".to_vec());
    assert_eq!(encode(b"Ma"), b"TWE=".to_vec());
    assert_eq!(encode(b"Man"), b"TWFu".to_vec());
    assert_eq!(encode(b"Hello"), b"SGVsbG8=".to_vec());
    assert_eq!(decode(b"TWFu").unwrap(), b"Man".to_vec());
    assert_eq!(decode(b"SGVsbG8=").unwrap(), b"Hello".to_vec());
    assert_eq!(decode(b"").unwrap(), b"".to_vec());
}

#[test]
fn both_alphabets_decode() {
    // bytes whose encoding uses the last two alphabet positions
    let data: Vec<u8> = vec![0xfb, 0xff, 0xbf];
    let ours = encode(&data);
    let standard = data.to_base64(Config {
        char_set: CharacterSet::Standard,
        newline: Newline::LF,
        pad: true,
        line_length: None,
    });
    let url_safe = data.to_base64(url_safe_padded());
    assert_ne!(standard, url_safe);
    assert_eq!(ours, url_safe.clone().into_bytes());
    assert_eq!(decode(standard.as_bytes()).unwrap(), data);
    assert_eq!(decode(url_safe.as_bytes()).unwrap(), data);
}

#[test]
fn agrees_with_the_reference_encoder() {
    let samples: Vec<Vec<u8>> = vec![
        vec![],
        vec![0],
        vec![0, 0],
        vec![255, 254, 253, 252, 251],
        (0u8..=255).collect(),
        b"any carnal pleasure.".to_vec(),
    ];
    for data in samples {
        let ours = String::from_utf8(encode(&data)).unwrap();
        let reference = data.to_base64(url_safe_padded());
        assert_eq!(ours, reference);
        assert_eq!(decode(ours.as_bytes()).unwrap(), data);
    }
}

#[test]
fn malformed_inputs_are_refused() {
    assert!(decode(b"TWF").is_none()); // not a multiple of four
    assert!(decode(b"!!!!").is_none()); // outside both alphabets
    assert!(decode(b"TW=u").is_none()); // padding in the middle
    assert!(decode(b"====").is_none()); // padding alone
    assert!(decode(b"TWFu=AAA").is_none()); // padding before the end
}
