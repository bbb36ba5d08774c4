use engine_io::packet::{decode_payload, encode_payload, u8_to_id, Error, Packet, ID};

fn msg(data: &[u8]) -> Packet {
    Packet { id: ID::Message, data: data.to_vec() }
}

#[test]
fn lib_it_works() {}

#[test]
fn packet_it_works() {
    let packets = decode_payload("6:4Hello11:4HelloWorld".to_string().into_bytes(), true, false)
        .unwrap();
    assert_eq!(packets[0].id, ID::Message);
    assert_eq!(packets[0].data, ("Hello".to_string().into_bytes()));
    assert_eq!(packets[1].id, ID::Message);
    assert_eq!(packets[1].data, ("HelloWorld".to_string().into_bytes()));

    let mut err = decode_payload("asd:asd".to_string().into_bytes(), true, false);
    assert!(err.is_err());
    err = decode_payload("10:2asd".to_string().into_bytes(), true, false);
    assert!(err.is_err());
}

#[test]
fn tag_bytes_map_both_ways() {
    assert_eq!(u8_to_id(b'0').unwrap(), ID::Open);
    assert_eq!(u8_to_id(b'1').unwrap(), ID::Close);
    assert_eq!(u8_to_id(b'2').unwrap(), ID::Ping);
    assert_eq!(u8_to_id(b'3').unwrap(), ID::Pong);
    assert_eq!(u8_to_id(b'4').unwrap(), ID::Message);
    assert_eq!(u8_to_id(b'5').unwrap(), ID::Upgrade);
    assert_eq!(u8_to_id(b'6').unwrap(), ID::Noop);
    assert_eq!(u8_to_id(b'7'), Err(Error::InvalidPacketID(b'7')));
    assert_eq!(u8_to_id(b'x'), Err(Error::InvalidPacketID(b'x')));
    for (id, tag) in [
        (ID::Open, b'0'),
        (ID::Close, b'1'),
        (ID::Ping, b'2'),
        (ID::Pong, b'3'),
        (ID::Message, b'4'),
        (ID::Upgrade, b'5'),
        (ID::Noop, b'6'),
    ] {
        assert_eq!(id.tag(), tag);
    }
}

#[test]
fn packet_encode_and_from_bytes() {
    let p = msg(b"Hello");
    assert_eq!(p.encode(), b"4Hello".to_vec());
    let q = Packet::from_bytes(b"4Hello").unwrap();
    assert_eq!(q.id, ID::Message);
    assert_eq!(q.data, b"Hello".to_vec());
    assert!(matches!(Packet::from_bytes(b""), Err(Error::EmptyPacket)));
    assert!(matches!(Packet::from_bytes(b"b"), Err(Error::IncompletePacket)));
    assert!(matches!(Packet::from_bytes(b"b9AAAA"), Err(Error::InvalidPacketID(b'9'))));
    assert!(matches!(Packet::from_bytes(b"b4!!!!"), Err(Error::Base64DecodeError)));
}

#[test]
fn encode_to_appends() {
    let mut out = b"x".to_vec();
    msg(b"yz").encode_to(&mut out);
    assert_eq!(out, b"x4yz".to_vec());
}

#[test]
fn text_framing_counts_the_tag_in_ascii_digits() {
    // an Open packet of N data bytes is framed as "<N+1>:0<data>"
    let data = b"{\"sid\":\"abc\"}".to_vec();
    let n = data.len();
    let p = Packet { id: ID::Open, data };
    let out = encode_payload(&vec![p], None, false, false);
    let expect = format!("{}:0{{\"sid\":\"abc\"}}", n + 1);
    assert_eq!(out.0, expect.into_bytes());
}

#[test]
fn binary_packet_is_base64_framed_without_counting_the_marker() {
    // a Message of non-UTF-8 bytes is framed as "<L+1>:b4<base64>"
    let p = msg(&[0xff, 0xfe, 0xfd]);
    let out = encode_payload(&vec![p], None, true, false);
    let body = String::from_utf8(out.0.clone()).unwrap();
    let colon = body.find(':').unwrap();
    let declared: usize = body[..colon].parse().unwrap();
    let rest = &body[colon + 1..];
    assert!(rest.starts_with("b4"));
    let base64_len = rest.len() - 2;
    assert_eq!(declared, base64_len + 1);
    // and it decodes back
    let packets = decode_payload(out.0, true, false).unwrap();
    assert_eq!(packets.len(), 1);
    assert_eq!(packets[0].id, ID::Message);
    assert_eq!(packets[0].data, vec![0xff, 0xfe, 0xfd]);
}

#[test]
fn text_round_trip_with_awkward_bytes() {
    let ps = vec![
        msg(b""),
        msg(b"with:colon"),
        msg(b"b starts like base64"),
        msg(b"line\nbreak"),
        msg(&[0u8, b'0', 0u8]),
        Packet { id: ID::Ping, data: b"probe".to_vec() },
        Packet { id: ID::Noop, data: vec![] },
    ];
    let out = encode_payload(&ps, None, false, false);
    let back = decode_payload(out.0, false, false).unwrap();
    assert_eq!(back.len(), ps.len());
    for (a, b) in ps.iter().zip(back.iter()) {
        assert_eq!(a.id, b.id);
        assert_eq!(a.data, b.data);
    }
}

#[test]
fn base64_round_trip_for_binary_packets() {
    let ps = vec![
        msg(&[0xff]),
        msg(&[0xff, 0x00]),
        msg(&[0xde, 0xad, 0xbe, 0xef]),
        msg(b"plain text among binary"),
    ];
    let out = encode_payload(&ps, None, true, false);
    let back = decode_payload(out.0, true, false).unwrap();
    assert_eq!(back.len(), ps.len());
    for (a, b) in ps.iter().zip(back.iter()) {
        assert_eq!(a.id, b.id);
        assert_eq!(a.data, b.data);
    }
}

#[test]
fn xhr2_round_trip() {
    let ps = vec![
        msg(&[0xff, 0x00, 0x09, 0xfa]),
        msg(b"text"),
        Packet { id: ID::Pong, data: b"ping".to_vec() },
        msg(b""),
    ];
    let out = encode_payload(&ps, None, false, true);
    let back = decode_payload(out.0, false, true).unwrap();
    assert_eq!(back.len(), ps.len());
    for (a, b) in ps.iter().zip(back.iter()) {
        assert_eq!(a.id, b.id);
        assert_eq!(a.data, b.data);
    }
}

#[test]
fn xhr2_framing_layout() {
    // flag byte, raw digits of len(data)+1, 0xFF, tag digit, data
    let out = encode_payload(&vec![msg(b"hello world!")], None, false, true);
    let b = out.0;
    assert_eq!(b[0], 0); // a string packet
    assert_eq!(&b[1..3], &[1u8, 3]); // 13 as raw digit bytes
    assert_eq!(b[3], 0xff);
    assert_eq!(b[4], b'4');
    assert_eq!(&b[5..], b"hello world!");
}

#[test]
fn decode_rejects_bad_lengths() {
    assert_eq!(
        decode_payload(b"asd:asd".to_vec(), true, false),
        Err(Error::InvalidLengthCharacter(b'a'))
    );
    assert_eq!(decode_payload(b"10:2asd".to_vec(), true, false), Err(Error::IncompletePacket));
    assert_eq!(decode_payload(b"".to_vec(), true, false), Err(Error::EmptyPacket));
    assert_eq!(decode_payload(b"".to_vec(), false, true), Err(Error::EmptyPacket));
    assert_eq!(decode_payload(b"5".to_vec(), true, false), Err(Error::IncompletePacket));
    assert_eq!(
        decode_payload(b":4abc".to_vec(), true, false),
        Err(Error::InvalidLengthCharacter(b':'))
    );
    // a declared length far past the input is incomplete, never a partial packet
    assert_eq!(
        decode_payload(b"999999999999999999999999:4a".to_vec(), true, false),
        Err(Error::IncompletePacket)
    );
    // trailing garbage after a valid chunk is a fresh (bad) length
    assert_eq!(
        decode_payload(b"2:4ax".to_vec(), true, false),
        Err(Error::InvalidLengthCharacter(b'x'))
    );
}

#[test]
fn decode_xhr2_rejects_bad_frames() {
    // a length digit above nine
    assert_eq!(
        decode_payload(vec![0, 1, 77, 0xff, b'4', b'a'], false, true),
        Err(Error::InvalidLengthDigit(77))
    );
    // a flag byte that is neither 0 nor 1
    assert_eq!(
        decode_payload(vec![9, 2, 0xff, b'4', b'a'], false, true),
        Err(Error::InvalidPacketID(9))
    );
    // declared length past the input
    assert_eq!(
        decode_payload(vec![0, 9, 0xff, b'4', b'a'], false, true),
        Err(Error::IncompletePacket)
    );
    // no terminator
    assert_eq!(decode_payload(vec![0, 2, 2, 2], false, true), Err(Error::IncompletePacket));
}

#[test]
fn jsonp_wrapping_escapes_quotes() {
    let out = encode_payload(&vec![msg(b"say \"hi\"")], Some(4), false, false);
    let body = String::from_utf8(out.0).unwrap();
    assert_eq!(body, "___eio[4](\"9:4say \\\"hi\\\"\");");
}

#[test]
fn error_descriptions_are_stable() {
    assert_eq!(Error::EmptyPacket.description(), "empty packet");
    assert_eq!(Error::IncompletePacket.description(), "incomplete packet");
    assert_eq!(Error::InvalidPacketID(7).description(), "invalid packet ID");
    assert_eq!(Error::InvalidLengthCharacter(b'a').description(), "invalid length character");
    assert_eq!(Error::InvalidLengthDigit(77).description(), "invalid length digit");
    assert_eq!(Error::Base64DecodeError.description(), "base64 decode error");
}
