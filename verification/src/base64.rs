//! Base64 for the text framing's binary fallback. The encoder emits the
//! URL-safe alphabet with `'='` padding; the decoder accepts the standard
//! and the URL-safe alphabet alike, padding required.
use vstd::prelude::*;

verus! {

/// The URL-safe alphabet: the character for a 6-bit value.
pub open spec fn b64_char(v: u8) -> u8
    recommends
        v < 64,
{
    if v < 26 {
        (0x41 + v) as u8  // 'A'..='Z'
    } else if v < 52 {
        (0x61 + (v - 26)) as u8  // 'a'..='z'
    } else if v < 62 {
        (0x30 + (v - 52)) as u8  // '0'..='9'
    } else if v == 62 {
        0x2d  // '-'
    } else {
        0x5f  // '_'
    }
}

/// The 6-bit value of a character, under either alphabet: `'+'` and `'-'`
/// both mean 62, `'/'` and `'_'` both mean 63.
pub open spec fn b64_val(c: u8) -> Option<u8> {
    if 0x41 <= c <= 0x5a {
        Some((c - 0x41) as u8)
    } else if 0x61 <= c <= 0x7a {
        Some((c - 0x61 + 26) as u8)
    } else if 0x30 <= c <= 0x39 {
        Some((c - 0x30 + 52) as u8)
    } else if c == 0x2b || c == 0x2d {
        Some(62u8)
    } else if c == 0x2f || c == 0x5f {
        Some(63u8)
    } else {
        None
    }
}

/// The four characters encoding a full group of three bytes.
pub open spec fn b64_group3(a: u8, b: u8, c: u8) -> Seq<u8> {
    seq![
        b64_char(a >> 2),
        b64_char(((a & 3) << 4) | (b >> 4)),
        b64_char(((b & 15) << 2) | (c >> 6)),
        b64_char(c & 63),
    ]
}

/// The four characters encoding a final group of two bytes.
pub open spec fn b64_group2(a: u8, b: u8) -> Seq<u8> {
    seq![
        b64_char(a >> 2),
        b64_char(((a & 3) << 4) | (b >> 4)),
        b64_char((b & 15) << 2),
        0x3d,
    ]
}

/// The four characters encoding a final group of one byte.
pub open spec fn b64_group1(a: u8) -> Seq<u8> {
    seq![b64_char(a >> 2), b64_char((a & 3) << 4), 0x3d, 0x3d]
}

/// The Base64 encoding of a byte string: full groups of three, then one
/// padded group for a one- or two-byte remainder.
pub open spec fn b64_encode(s: Seq<u8>) -> Seq<u8>
    decreases s.len(),
{
    if s.len() == 0 {
        Seq::<u8>::empty()
    } else if s.len() == 1 {
        b64_group1(s[0])
    } else if s.len() == 2 {
        b64_group2(s[0], s[1])
    } else {
        b64_group3(s[0], s[1], s[2]) + b64_encode(s.skip(3))
    }
}

/// The bytes of one decoded group of four characters, allowed to end the
/// input with one or two `'='` of padding. `None` on any character outside
/// both alphabets or on misplaced padding.
pub open spec fn b64_decode_group(c0: u8, c1: u8, c2: u8, c3: u8) -> Option<Seq<u8>> {
    match (b64_val(c0), b64_val(c1)) {
        (Some(v0), Some(v1)) => {
            if c2 == 0x3d {
                if c3 == 0x3d {
                    Some(seq![((v0 << 2) | (v1 >> 4)) as u8])
                } else {
                    None
                }
            } else {
                match b64_val(c2) {
                    Some(v2) => {
                        if c3 == 0x3d {
                            Some(seq![((v0 << 2) | (v1 >> 4)) as u8, ((v1 << 4) | (v2 >> 2)) as u8])
                        } else {
                            match b64_val(c3) {
                                Some(v3) => Some(
                                    seq![
                                        ((v0 << 2) | (v1 >> 4)) as u8,
                                        ((v1 << 4) | (v2 >> 2)) as u8,
                                        ((v2 << 6) | v3) as u8,
                                    ],
                                ),
                                None => None,
                            }
                        }
                    },
                    None => None,
                }
            }
        },
        _ => None,
    }
}

/// The decoding of a Base64 string: groups of four characters, padding only
/// in the last group. `None` when the length is not a multiple of four.
pub open spec fn b64_decode(s: Seq<u8>) -> Option<Seq<u8>>
    decreases s.len(),
{
    if s.len() == 0 {
        Some(Seq::<u8>::empty())
    } else if s.len() < 4 {
        None
    } else if s.len() == 4 {
        b64_decode_group(s[0], s[1], s[2], s[3])
    } else {
        match (b64_val(s[0]), b64_val(s[1]), b64_val(s[2]), b64_val(s[3])) {
            (Some(v0), Some(v1), Some(v2), Some(v3)) => {
                match b64_decode(s.skip(4)) {
                    Some(rest) => Some(
                        seq![
                            ((v0 << 2) | (v1 >> 4)) as u8,
                            ((v1 << 4) | (v2 >> 2)) as u8,
                            ((v2 << 6) | v3) as u8,
                        ] + rest,
                    ),
                    None => None,
                }
            },
            _ => None,
        }
    }
}

/// The alphabet and its reading are inverse to one another.
proof fn lemma_val_of_char(v: u8)
    requires
        v < 64,
    ensures
        b64_val(b64_char(v)) == Some(v),
{
}

/// The encoding's characters are never `'='` and always read back as values.
proof fn lemma_char_not_pad(v: u8)
    requires
        v < 64,
    ensures
        b64_char(v) != 0x3d,
{
}

/// Reading a full group back gives the three bytes that were encoded.
proof fn lemma_group3_roundtrip(a: u8, b: u8, c: u8)
    ensures
        b64_decode_group(
            b64_group3(a, b, c)[0],
            b64_group3(a, b, c)[1],
            b64_group3(a, b, c)[2],
            b64_group3(a, b, c)[3],
        ) == Some(seq![a, b, c]),
{
    let v0 = a >> 2;
    let v1 = ((a & 3) << 4) | (b >> 4);
    let v2 = ((b & 15) << 2) | (c >> 6);
    let v3 = c & 63;
    assert(v0 < 64 && v1 < 64 && v2 < 64 && v3 < 64) by (bit_vector)
        requires
            v0 == a >> 2 && v1 == ((a & 3) << 4) | (b >> 4) && v2 == ((b & 15) << 2) | (c >> 6)
                && v3 == c & 63,
    ;
    lemma_val_of_char(v0);
    lemma_val_of_char(v1);
    lemma_val_of_char(v2);
    lemma_val_of_char(v3);
    lemma_char_not_pad(v2);
    lemma_char_not_pad(v3);
    assert(((v0 << 2) | (v1 >> 4)) == a && ((v1 << 4) | (v2 >> 2)) == b && ((v2 << 6) | v3) == c)
        by (bit_vector)
        requires
            v0 == a >> 2 && v1 == ((a & 3) << 4) | (b >> 4) && v2 == ((b & 15) << 2) | (c >> 6)
                && v3 == c & 63,
    ;
    assert(b64_decode_group(b64_char(v0), b64_char(v1), b64_char(v2), b64_char(v3)) == Some(
        seq![a, b, c],
    ));
}

/// Reading a two-byte final group back gives the two bytes.
proof fn lemma_group2_roundtrip(a: u8, b: u8)
    ensures
        b64_decode_group(
            b64_group2(a, b)[0],
            b64_group2(a, b)[1],
            b64_group2(a, b)[2],
            b64_group2(a, b)[3],
        ) == Some(seq![a, b]),
{
    let v0 = a >> 2;
    let v1 = ((a & 3) << 4) | (b >> 4);
    let v2 = (b & 15) << 2;
    assert(v0 < 64 && v1 < 64 && v2 < 64) by (bit_vector)
        requires
            v0 == a >> 2 && v1 == ((a & 3) << 4) | (b >> 4) && v2 == (b & 15) << 2,
    ;
    lemma_val_of_char(v0);
    lemma_val_of_char(v1);
    lemma_val_of_char(v2);
    lemma_char_not_pad(v2);
    assert(((v0 << 2) | (v1 >> 4)) == a && ((v1 << 4) | (v2 >> 2)) == b) by (bit_vector)
        requires
            v0 == a >> 2 && v1 == ((a & 3) << 4) | (b >> 4) && v2 == (b & 15) << 2,
    ;
    assert(b64_decode_group(b64_char(v0), b64_char(v1), b64_char(v2), 0x3d) == Some(seq![a, b]));
}

/// Reading a one-byte final group back gives the byte.
proof fn lemma_group1_roundtrip(a: u8)
    ensures
        b64_decode_group(
            b64_group1(a)[0],
            b64_group1(a)[1],
            b64_group1(a)[2],
            b64_group1(a)[3],
        ) == Some(seq![a]),
{
    let v0 = a >> 2;
    let v1 = (a & 3) << 4;
    assert(v0 < 64 && v1 < 64) by (bit_vector)
        requires
            v0 == a >> 2 && v1 == (a & 3) << 4,
    ;
    lemma_val_of_char(v0);
    lemma_val_of_char(v1);
    assert(((v0 << 2) | (v1 >> 4)) == a) by (bit_vector)
        requires
            v0 == a >> 2 && v1 == (a & 3) << 4,
    ;
    assert(b64_decode_group(b64_char(v0), b64_char(v1), 0x3d, 0x3d) == Some(seq![a]));
}

/// Decoding an encoding gives back what was encoded, whatever the bytes.
pub proof fn lemma_b64_roundtrip(s: Seq<u8>)
    ensures
        b64_decode(b64_encode(s)) == Some(s),
    decreases s.len(),
{
    if s.len() == 0 {
        assert(b64_encode(s) =~= Seq::<u8>::empty());
        assert(b64_decode(b64_encode(s)) == Some(Seq::<u8>::empty()));
        assert(s =~= Seq::<u8>::empty());
    } else if s.len() == 1 {
        lemma_group1_roundtrip(s[0]);
        assert(b64_encode(s).len() == 4);
        assert(s =~= seq![s[0]]);
    } else if s.len() == 2 {
        lemma_group2_roundtrip(s[0], s[1]);
        assert(b64_encode(s).len() == 4);
        assert(s =~= seq![s[0], s[1]]);
    } else {
        let a = s[0];
        let b = s[1];
        let c = s[2];
        let e = b64_encode(s);
        let g = b64_group3(a, b, c);
        let rest = b64_encode(s.skip(3));
        assert(e == g + rest);
        lemma_encode_len_multiple(s.skip(3));
        lemma_b64_roundtrip(s.skip(3));
        lemma_group3_roundtrip(a, b, c);
        let v0 = a >> 2;
        let v1 = ((a & 3) << 4) | (b >> 4);
        let v2 = ((b & 15) << 2) | (c >> 6);
        let v3 = c & 63;
        assert(v0 < 64 && v1 < 64 && v2 < 64 && v3 < 64) by (bit_vector)
            requires
                v0 == a >> 2 && v1 == ((a & 3) << 4) | (b >> 4) && v2 == ((b & 15) << 2) | (c >> 6)
                    && v3 == c & 63,
        ;
        lemma_val_of_char(v0);
        lemma_val_of_char(v1);
        lemma_val_of_char(v2);
        lemma_val_of_char(v3);
        if s.len() == 3 {
            // the remainder is empty, so the whole encoding is one group
            assert(e.len() == 4);
            assert(e[0] == g[0] && e[1] == g[1] && e[2] == g[2] && e[3] == g[3]);
            assert(b64_decode(e) == b64_decode_group(g[0], g[1], g[2], g[3]));
            assert(s =~= seq![a, b, c]);
        } else {
            // the encoding is one group followed by the encoded remainder
            assert(e.len() >= 8);
            assert(e[0] == g[0] && e[1] == g[1] && e[2] == g[2] && e[3] == g[3]);
            assert(e.skip(4) =~= rest);
            assert(((v0 << 2) | (v1 >> 4)) == a && ((v1 << 4) | (v2 >> 2)) == b && ((v2 << 6) | v3)
                == c) by (bit_vector)
                requires
                    v0 == a >> 2 && v1 == ((a & 3) << 4) | (b >> 4) && v2 == ((b & 15) << 2) | (c
                        >> 6) && v3 == c & 63,
            ;
            assert(b64_decode(e) == Some(seq![a, b, c] + s.skip(3)));
            assert(seq![a, b, c] + s.skip(3) =~= s);
        }
    }
}

/// The length of an encoding is a multiple of four.
pub proof fn lemma_encode_len_multiple(s: Seq<u8>)
    ensures
        b64_encode(s).len() % 4 == 0,
        s.len() > 0 ==> b64_encode(s).len() >= 4,
    decreases s.len(),
{
    if s.len() >= 3 {
        lemma_encode_len_multiple(s.skip(3));
    }
}

/// Encodes bytes as Base64 under the URL-safe alphabet, with padding.
pub fn encode(data: &[u8]) -> (r: Vec<u8>)
    ensures
        r@ == b64_encode(data@),
{
    let mut r: Vec<u8> = Vec::new();
    let mut i: usize = 0;
    let len = data.len();
    proof {
        assert(data@.skip(0) =~= data@);
        assert(r@ + b64_encode(data@) =~= b64_encode(data@));
    }
    while len - i > 3
        invariant
            0 <= i <= len,
            len == data@.len(),
            b64_encode(data@) == r@ + b64_encode(data@.skip(i as int)),
        decreases len - i,
    {
        let a = data[i];
        let b = data[i + 1];
        let c = data[i + 2];
        proof {
            assert(a >> 2 < 64 && (((a & 3) << 4) | (b >> 4)) < 64 && (((b & 15) << 2) | (c >> 6))
                < 64 && c & 63 < 64) by (bit_vector);
            assert(data@.skip(i as int).len() > 3);
            assert(data@.skip(i as int)[0] == a);
            assert(data@.skip(i as int)[1] == b);
            assert(data@.skip(i as int)[2] == c);
            assert(data@.skip(i as int).skip(3) =~= data@.skip(i as int + 3));
        }
        let ghost pre = r@;
        r.push(to_char(a >> 2));
        r.push(to_char(((a & 3) << 4) | (b >> 4)));
        r.push(to_char(((b & 15) << 2) | (c >> 6)));
        r.push(to_char(c & 63));
        proof {
            assert(r@ =~= pre + b64_group3(a, b, c));
            assert(b64_encode(data@.skip(i as int)) == b64_group3(a, b, c) + b64_encode(
                data@.skip(i as int + 3),
            ));
            assert(pre + (b64_group3(a, b, c) + b64_encode(data@.skip(i as int + 3))) =~= r@
                + b64_encode(data@.skip(i as int + 3)));
        }
        i = i + 3;
    }
    let ghost pre = r@;
    if len - i == 3 {
        let a = data[i];
        let b = data[i + 1];
        let c = data[i + 2];
        proof {
            assert(a >> 2 < 64 && (((a & 3) << 4) | (b >> 4)) < 64 && (((b & 15) << 2) | (c >> 6))
                < 64 && c & 63 < 64) by (bit_vector);
            assert(data@.skip(i as int).len() == 3);
            assert(data@.skip(i as int)[0] == a);
            assert(data@.skip(i as int)[1] == b);
            assert(data@.skip(i as int)[2] == c);
            assert(data@.skip(i as int).skip(3) =~= Seq::<u8>::empty());
            assert(b64_encode(Seq::<u8>::empty()) == Seq::<u8>::empty());
            assert(b64_group3(a, b, c) + Seq::<u8>::empty() =~= b64_group3(a, b, c));
            assert(b64_encode(data@.skip(i as int)) =~= b64_group3(a, b, c));
        }
        r.push(to_char(a >> 2));
        r.push(to_char(((a & 3) << 4) | (b >> 4)));
        r.push(to_char(((b & 15) << 2) | (c >> 6)));
        r.push(to_char(c & 63));
        assert(r@ =~= pre + b64_group3(a, b, c));
        assert(r@ =~= b64_encode(data@));
    } else if len - i == 2 {
        let a = data[i];
        let b = data[i + 1];
        proof {
            assert(a >> 2 < 64 && (((a & 3) << 4) | (b >> 4)) < 64 && ((b & 15) << 2) < 64)
                by (bit_vector);
            assert(data@.skip(i as int).len() == 2);
            assert(data@.skip(i as int)[0] == a);
            assert(data@.skip(i as int)[1] == b);
            assert(b64_encode(data@.skip(i as int)) == b64_group2(a, b));
        }
        r.push(to_char(a >> 2));
        r.push(to_char(((a & 3) << 4) | (b >> 4)));
        r.push(to_char((b & 15) << 2));
        r.push(0x3d);
        assert(r@ =~= pre + b64_group2(a, b));
        assert(r@ =~= b64_encode(data@));
    } else if len - i == 1 {
        let a = data[i];
        proof {
            assert(a >> 2 < 64 && ((a & 3) << 4) < 64) by (bit_vector);
            assert(data@.skip(i as int).len() == 1);
            assert(data@.skip(i as int)[0] == a);
            assert(b64_encode(data@.skip(i as int)) == b64_group1(a));
        }
        r.push(to_char(a >> 2));
        r.push(to_char((a & 3) << 4));
        r.push(0x3d);
        r.push(0x3d);
        assert(r@ =~= pre + b64_group1(a));
        assert(r@ =~= b64_encode(data@));
    } else {
        proof {
            assert(data@.skip(i as int).len() == 0);
            assert(b64_encode(data@.skip(i as int)) =~= Seq::<u8>::empty());
            assert(r@ =~= b64_encode(data@));
        }
    }
    r
}

/// The alphabet as executable code.
fn to_char(v: u8) -> (r: u8)
    requires
        v < 64,
    ensures
        r == b64_char(v),
{
    if v < 26 {
        0x41 + v
    } else if v < 52 {
        0x61 + (v - 26)
    } else if v < 62 {
        0x30 + (v - 52)
    } else if v == 62 {
        0x2d
    } else {
        0x5f
    }
}

/// The reading of one character as executable code.
fn from_char(c: u8) -> (r: Option<u8>)
    ensures
        r == b64_val(c),
{
    if 0x41 <= c && c <= 0x5a {
        Some(c - 0x41)
    } else if 0x61 <= c && c <= 0x7a {
        Some(c - 0x61 + 26)
    } else if 0x30 <= c && c <= 0x39 {
        Some(c - 0x30 + 52)
    } else if c == 0x2b || c == 0x2d {
        Some(62)
    } else if c == 0x2f || c == 0x5f {
        Some(63)
    } else {
        None
    }
}

/// Decodes Base64, accepting the standard and the URL-safe alphabet,
/// padding required. `None` on any input that is not such an encoding.
pub fn decode(data: &[u8]) -> (r: Option<Vec<u8>>)
    ensures
        r matches Some(v) ==> b64_decode(data@) == Some(v@),
        r is None ==> b64_decode(data@) is None,
{
    let len = data.len();
    let mut out: Vec<u8> = Vec::new();
    let mut i: usize = 0;
    if len == 0 {
        return Some(out);
    }
    if len % 4 != 0 {
        proof {
            lemma_decode_needs_multiple(data@);
        }
        return None;
    }
    proof {
        assert(data@.skip(0) =~= data@);
        assert(forall|w: Seq<u8>| out@ + w =~= w);
        assert(len >= 4);
    }
    while len - i > 4
        invariant
            0 <= i <= len,
            len == data@.len(),
            len % 4 == 0,
            i % 4 == 0,
            len - i >= 4,
            forall|w: Seq<u8>|
                b64_decode(data@.skip(i as int)) == Some(w) ==> b64_decode(data@) == Some(out@ + w),
            b64_decode(data@.skip(i as int)) is None ==> b64_decode(data@) is None,
        decreases len - i,
    {
        let c0 = from_char(data[i]);
        let c1 = from_char(data[i + 1]);
        let c2 = from_char(data[i + 2]);
        let c3 = from_char(data[i + 3]);
        proof {
            assert(data@.skip(i as int).len() > 4);
            assert(data@.skip(i as int)[0] == data@[i as int]);
            assert(data@.skip(i as int)[1] == data@[i as int + 1]);
            assert(data@.skip(i as int)[2] == data@[i as int + 2]);
            assert(data@.skip(i as int).skip(4) =~= data@.skip(i as int + 4));
        }
        match (c0, c1, c2, c3) {
            (Some(v0), Some(v1), Some(v2), Some(v3)) => {
                let ghost pre = out@;
                let ghost group = seq![(v0 << 2) | (v1 >> 4), (v1 << 4) | (v2 >> 2), (v2 << 6) | v3];
                out.push((v0 << 2) | (v1 >> 4));
                out.push((v1 << 4) | (v2 >> 2));
                out.push((v2 << 6) | v3);
                proof {
                    assert(out@ =~= pre + group);
                    assert(b64_decode(data@.skip(i as int)) == match b64_decode(
                        data@.skip(i as int + 4),
                    ) {
                        Some(rest) => Some(group + rest),
                        None => None,
                    });
                    assert forall|w: Seq<u8>|
                        b64_decode(data@.skip(i as int + 4)) == Some(w) implies b64_decode(data@)
                        == Some(out@ + w) by {
                        assert(b64_decode(data@.skip(i as int)) == Some(group + w));
                        assert(pre + (group + w) =~= out@ + w);
                    }
                }
                i = i + 4;
            },
            _ => {
                return None;
            },
        }
    }
    // the last group, with padding allowed
    let c0 = data[i];
    let c1 = data[i + 1];
    let c2 = data[i + 2];
    let c3 = data[i + 3];
    let ghost pre = out@;
    proof {
        assert(data@.skip(i as int).len() == 4);
        assert(data@.skip(i as int)[0] == c0);
        assert(data@.skip(i as int)[1] == c1);
        assert(data@.skip(i as int)[2] == c2);
        assert(data@.skip(i as int)[3] == c3);
        assert(b64_decode(data@.skip(i as int)) == b64_decode_group(c0, c1, c2, c3));
    }
    let v0 = match from_char(c0) {
        Some(v) => v,
        None => {
            return None;
        },
    };
    let v1 = match from_char(c1) {
        Some(v) => v,
        None => {
            return None;
        },
    };
    if c2 == 0x3d {
        if c3 == 0x3d {
            out.push((v0 << 2) | (v1 >> 4));
            assert(out@ =~= pre + seq![(v0 << 2) | (v1 >> 4)]);
            return Some(out);
        } else {
            return None;
        }
    }
    let v2 = match from_char(c2) {
        Some(v) => v,
        None => {
            return None;
        },
    };
    if c3 == 0x3d {
        out.push((v0 << 2) | (v1 >> 4));
        out.push((v1 << 4) | (v2 >> 2));
        assert(out@ =~= pre + seq![(v0 << 2) | (v1 >> 4), (v1 << 4) | (v2 >> 2)]);
        return Some(out);
    }
    let v3 = match from_char(c3) {
        Some(v) => v,
        None => {
            return None;
        },
    };
    out.push((v0 << 2) | (v1 >> 4));
    out.push((v1 << 4) | (v2 >> 2));
    out.push((v2 << 6) | v3);
    assert(out@ =~= pre + seq![(v0 << 2) | (v1 >> 4), (v1 << 4) | (v2 >> 2), (v2 << 6) | v3]);
    Some(out)
}

/// No string whose length is not a multiple of four decodes.
proof fn lemma_decode_needs_multiple(s: Seq<u8>)
    ensures
        s.len() % 4 != 0 ==> b64_decode(s) is None,
    decreases s.len(),
{
    if s.len() > 4 {
        lemma_decode_needs_multiple(s.skip(4));
    }
}

} // verus!
