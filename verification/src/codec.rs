//! The transcoder: padded base64 over the standard alphabet.
//!
//! `encoded` and `decoded` are the mathematical model of the text-safe
//! encoding; `encode` and `decode` are the executable functions proved
//! against it. The round-trip laws and the rejection of malformed text
//! are stated and proved at the bottom of the module.

use vstd::prelude::*;
use vstd::string::StrSliceExecFns;
use vstd::utf8::is_ascii_chars;
use vstd::utf8::is_ascii_chars_encode_utf8;
use crate::errors::CacheError;

verus! {

/// True of the sixty-four alphabet characters; false of everything
/// else, the padding character '=' included.
pub open spec fn in_alphabet(c: char) -> bool {
    ||| 'A' <= c && c <= 'Z'
    ||| 'a' <= c && c <= 'z'
    ||| '0' <= c && c <= '9'
    ||| c == '+'
    ||| c == '/'
}

/// The six-bit value an alphabet character stands for.
pub open spec fn sextet_of(c: char) -> u8
    recommends
        in_alphabet(c),
{
    if 'A' <= c && c <= 'Z' {
        (c as u32 - 'A' as u32) as u8
    } else if 'a' <= c && c <= 'z' {
        (c as u32 - 'a' as u32 + 26) as u8
    } else if '0' <= c && c <= '9' {
        (c as u32 - '0' as u32 + 52) as u8
    } else if c == '+' {
        62u8
    } else {
        63u8
    }
}

/// The alphabet character standing for a six-bit value.
pub open spec fn glyph_of(v: u8) -> char
    recommends
        v < 64,
{
    if v < 26 {
        (('A' as u8 + v) as u8) as char
    } else if v < 52 {
        (('a' as u8 + v - 26) as u8) as char
    } else if v < 62 {
        (('0' as u8 + v - 52) as u8) as char
    } else if v == 62 {
        '+'
    } else {
        '/'
    }
}

/// The four six-bit values spread over a group of three bytes.
pub open spec fn split6(b0: u8, b1: u8, b2: u8) -> (u8, u8, u8, u8) {
    (b0 >> 2, ((b0 & 0x03) << 4) | (b1 >> 4), ((b1 & 0x0f) << 2) | (b2 >> 6), b2 & 0x3f)
}

/// The three bytes packed from four six-bit values.
pub open spec fn join6(v0: u8, v1: u8, v2: u8, v3: u8) -> (u8, u8, u8)
    recommends
        v0 < 64 && v1 < 64 && v2 < 64 && v3 < 64,
{
    ((v0 << 2) | (v1 >> 4), (v1 << 4) | (v2 >> 2), (v2 << 6) | v3)
}

/// The padded base64 text of a byte sequence.
pub open spec fn encoded(b: Seq<u8>) -> Seq<char>
    decreases b.len(),
{
    if b.len() == 0 {
        Seq::empty()
    } else if b.len() == 1 {
        let (v0, v1, _v2, _v3) = split6(b[0], 0, 0);
        seq![glyph_of(v0), glyph_of(v1), '=', '=']
    } else if b.len() == 2 {
        let (v0, v1, v2, _v3) = split6(b[0], b[1], 0);
        seq![glyph_of(v0), glyph_of(v1), glyph_of(v2), '=']
    } else {
        let (v0, v1, v2, v3) = split6(b[0], b[1], b[2]);
        seq![glyph_of(v0), glyph_of(v1), glyph_of(v2), glyph_of(v3)] + encoded(b.skip(3))
    }
}

/// The bytes whose canonical padded base64 text is `t`, and `None`
/// when `t` is no such text: a character outside the alphabet, a
/// length that is not a multiple of four, padding anywhere but at the
/// very end, or unused bits that are not zero.
pub open spec fn decoded(t: Seq<char>) -> Option<Seq<u8>>
    decreases t.len(),
{
    if t.len() == 0 {
        Some(Seq::empty())
    } else if t.len() < 4 {
        None
    } else if in_alphabet(t[0]) && in_alphabet(t[1]) && in_alphabet(t[2]) && in_alphabet(t[3]) {
        let (b0, b1, b2) = join6(sextet_of(t[0]), sextet_of(t[1]), sextet_of(t[2]), sextet_of(t[3]));
        match decoded(t.skip(4)) {
            Some(rest) => Some(seq![b0, b1, b2] + rest),
            None => None,
        }
    } else if t.len() == 4 && in_alphabet(t[0]) && in_alphabet(t[1]) && in_alphabet(t[2])
        && t[3] == '=' && sextet_of(t[2]) & 0x03 == 0 {
        let (b0, b1, _b2) = join6(sextet_of(t[0]), sextet_of(t[1]), sextet_of(t[2]), 0);
        Some(seq![b0, b1])
    } else if t.len() == 4 && in_alphabet(t[0]) && in_alphabet(t[1]) && t[2] == '=' && t[3] == '='
        && sextet_of(t[1]) & 0x0f == 0 {
        let (b0, _b1, _b2) = join6(sextet_of(t[0]), sextet_of(t[1]), 0, 0);
        Some(seq![b0])
    } else {
        None
    }
}

/// Reading a six-bit value back from its alphabet character gives the
/// value again, and the character is never the padding character.
proof fn lemma_glyph_of_inverts(v: u8)
    requires
        v < 64,
    ensures
        in_alphabet(glyph_of(v)),
        sextet_of(glyph_of(v)) == v,
        glyph_of(v) != '=',
{
}

/// Writing an alphabet character's six-bit value back as a character
/// gives the character again, and the value is below sixty-four.
proof fn lemma_sextet_of_inverts(c: char)
    requires
        in_alphabet(c),
    ensures
        sextet_of(c) < 64,
        glyph_of(sextet_of(c)) == c,
{
}

/// Splitting a group of three bytes yields four six-bit values that
/// pack back into the same bytes; with zero fill bytes, the unused
/// bits of the last value written are zero.
proof fn lemma_split6_inverts(b0: u8, b1: u8, b2: u8)
    ensures
        ({
            let (v0, v1, v2, v3) = split6(b0, b1, b2);
            &&& v0 < 64 && v1 < 64 && v2 < 64 && v3 < 64
            &&& join6(v0, v1, v2, v3) == (b0, b1, b2)
            &&& (b1 == 0 ==> v1 & 0x0f == 0)
            &&& (b2 == 0 ==> v2 & 0x03 == 0)
        }),
{
    assert((b0 >> 2) < 64 && (((b0 & 0x03) << 4) | (b1 >> 4)) < 64
        && (((b1 & 0x0f) << 2) | (b2 >> 6)) < 64 && (b2 & 0x3f) < 64) by (bit_vector);
    assert(((b0 >> 2) << 2) | ((((b0 & 0x03) << 4) | (b1 >> 4)) >> 4) == b0) by (bit_vector);
    assert(((((b0 & 0x03) << 4) | (b1 >> 4)) << 4) | ((((b1 & 0x0f) << 2) | (b2 >> 6)) >> 2)
        == b1) by (bit_vector);
    assert(((((b1 & 0x0f) << 2) | (b2 >> 6)) << 6) | (b2 & 0x3f) == b2) by (bit_vector);
    assert(b1 == 0 ==> (((b0 & 0x03) << 4) | (b1 >> 4)) & 0x0f == 0) by (bit_vector);
    assert(b2 == 0 ==> (((b1 & 0x0f) << 2) | (b2 >> 6)) & 0x03 == 0) by (bit_vector);
}

/// Packing four six-bit values into three bytes and splitting those
/// bytes again yields the same four values.
proof fn lemma_join6_inverts(v0: u8, v1: u8, v2: u8, v3: u8)
    requires
        v0 < 64 && v1 < 64 && v2 < 64 && v3 < 64,
    ensures
        ({
            let (b0, b1, b2) = join6(v0, v1, v2, v3);
            split6(b0, b1, b2) == (v0, v1, v2, v3)
        }),
{
    assert(v0 < 64 && v1 < 64 && v2 < 64 && v3 < 64 ==> {
        let b0 = (v0 << 2) | (v1 >> 4);
        let b1 = (v1 << 4) | (v2 >> 2);
        let b2 = (v2 << 6) | v3;
        (b0 >> 2) == v0 && (((b0 & 0x03) << 4) | (b1 >> 4)) == v1
            && (((b1 & 0x0f) << 2) | (b2 >> 6)) == v2 && (b2 & 0x3f) == v3
    }) by (bit_vector);
}

/// Packing a final group of one byte (the second value carries only
/// the byte's two trailing bits) and splitting the byte again yields
/// the same two values.
proof fn lemma_join6_inverts_pad2(v0: u8, v1: u8)
    requires
        v0 < 64 && v1 < 64,
        v1 & 0x0f == 0,
    ensures
        ({
            let (b0, _b1, _b2) = join6(v0, v1, 0, 0);
            let (w0, w1, _w2, _w3) = split6(b0, 0, 0);
            w0 == v0 && w1 == v1
        }),
{
    assert(v0 < 64 && v1 < 64 && v1 & 0x0f == 0 ==> {
        let b0 = (v0 << 2) | (v1 >> 4);
        (b0 >> 2) == v0 && (((b0 & 0x03) << 4) | (0u8 >> 4)) == v1
    }) by (bit_vector);
}

/// Packing a final group of two bytes (the third value carries only
/// the second byte's four trailing bits) and splitting those bytes
/// again yields the same three values.
proof fn lemma_join6_inverts_pad1(v0: u8, v1: u8, v2: u8)
    requires
        v0 < 64 && v1 < 64 && v2 < 64,
        v2 & 0x03 == 0,
    ensures
        ({
            let (b0, b1, _b2) = join6(v0, v1, v2, 0);
            let (w0, w1, w2, _w3) = split6(b0, b1, 0);
            w0 == v0 && w1 == v1 && w2 == v2
        }),
{
    assert(v0 < 64 && v1 < 64 && v2 < 64 && v2 & 0x03 == 0 ==> {
        let b0 = (v0 << 2) | (v1 >> 4);
        let b1 = (v1 << 4) | (v2 >> 2);
        (b0 >> 2) == v0 && (((b0 & 0x03) << 4) | (b1 >> 4)) == v1
            && (((b1 & 0x0f) << 2) | (0u8 >> 6)) == v2
    }) by (bit_vector);
}

/// Decoding undoes encoding: every byte sequence comes back unchanged
/// from its own encoded text.
pub proof fn lemma_decode_of_encode(b: Seq<u8>)
    ensures
        decoded(encoded(b)) == Some(b),
    decreases b.len(),
{
    let t = encoded(b);
    if b.len() == 0 {
        assert(b =~= Seq::<u8>::empty());
    } else if b.len() == 1 {
        let (v0, v1, _v2, _v3) = split6(b[0], 0, 0);
        lemma_split6_inverts(b[0], 0, 0);
        lemma_glyph_of_inverts(v0);
        lemma_glyph_of_inverts(v1);
        assert(decoded(t) == Some(seq![join6(v0, v1, 0, 0).0]));
        assert(seq![join6(v0, v1, 0, 0).0] =~= b);
    } else if b.len() == 2 {
        let (v0, v1, v2, _v3) = split6(b[0], b[1], 0);
        lemma_split6_inverts(b[0], b[1], 0);
        lemma_glyph_of_inverts(v0);
        lemma_glyph_of_inverts(v1);
        lemma_glyph_of_inverts(v2);
        let (c0, c1, _c2) = join6(v0, v1, v2, 0);
        assert(decoded(t) == Some(seq![c0, c1]));
        assert(seq![c0, c1] =~= b);
    } else {
        let (v0, v1, v2, v3) = split6(b[0], b[1], b[2]);
        lemma_split6_inverts(b[0], b[1], b[2]);
        lemma_glyph_of_inverts(v0);
        lemma_glyph_of_inverts(v1);
        lemma_glyph_of_inverts(v2);
        lemma_glyph_of_inverts(v3);
        lemma_encoded_len(b.skip(3));
        lemma_decode_of_encode(b.skip(3));
        assert(t.skip(4) =~= encoded(b.skip(3)));
        assert(decoded(t) == Some(seq![b[0], b[1], b[2]] + b.skip(3)));
        assert(seq![b[0], b[1], b[2]] + b.skip(3) =~= b);
    }
}

/// Encoded text is empty only for empty input, and otherwise comes in
/// groups of four characters.
proof fn lemma_encoded_len(b: Seq<u8>)
    ensures
        b.len() == 0 ==> encoded(b).len() == 0,
        b.len() > 0 ==> encoded(b).len() >= 4,
        encoded(b).len() % 4 == 0,
    decreases b.len(),
{
    if b.len() > 2 {
        lemma_encoded_len(b.skip(3));
    }
}

/// Encoding undoes decoding: text that decodes at all is exactly the
/// encoded text of what it decodes to, so decodable text is canonical.
pub proof fn lemma_encode_of_decode(t: Seq<char>, b: Seq<u8>)
    requires
        decoded(t) == Some(b),
    ensures
        encoded(b) == t,
    decreases t.len(),
{
    if t.len() == 0 {
        assert(b =~= Seq::<u8>::empty());
        assert(encoded(b) =~= t);
    } else if in_alphabet(t[0]) && in_alphabet(t[1]) && in_alphabet(t[2]) && in_alphabet(t[3])
        && decoded(t.skip(4)) is Some {
        let s0 = sextet_of(t[0]);
        let s1 = sextet_of(t[1]);
        let s2 = sextet_of(t[2]);
        let s3 = sextet_of(t[3]);
        lemma_sextet_of_inverts(t[0]);
        lemma_sextet_of_inverts(t[1]);
        lemma_sextet_of_inverts(t[2]);
        lemma_sextet_of_inverts(t[3]);
        lemma_join6_inverts(s0, s1, s2, s3);
        let (b0, b1, b2) = join6(s0, s1, s2, s3);
        let rest = decoded(t.skip(4))->Some_0;
        lemma_encode_of_decode(t.skip(4), rest);
        assert(b =~= seq![b0, b1, b2] + rest);
        assert(b.skip(3) =~= rest);
        assert(encoded(b) =~= t);
    } else if t.len() == 4 && in_alphabet(t[0]) && in_alphabet(t[1]) && in_alphabet(t[2])
        && t[3] == '=' && sextet_of(t[2]) & 0x03 == 0 {
        let s0 = sextet_of(t[0]);
        let s1 = sextet_of(t[1]);
        let s2 = sextet_of(t[2]);
        lemma_sextet_of_inverts(t[0]);
        lemma_sextet_of_inverts(t[1]);
        lemma_sextet_of_inverts(t[2]);
        lemma_join6_inverts_pad1(s0, s1, s2);
        let (b0, b1, _b2) = join6(s0, s1, s2, 0);
        assert(b =~= seq![b0, b1]);
        assert(encoded(b) =~= t);
    } else {
        let s0 = sextet_of(t[0]);
        let s1 = sextet_of(t[1]);
        lemma_sextet_of_inverts(t[0]);
        lemma_sextet_of_inverts(t[1]);
        lemma_join6_inverts_pad2(s0, s1);
        let (b0, _b1, _b2) = join6(s0, s1, 0, 0);
        assert(b =~= seq![b0]);
        assert(encoded(b) =~= t);
    }
}

/// Text holding any character that is neither in the alphabet nor the
/// padding character decodes to nothing, wherever that character
/// stands.
pub proof fn lemma_decode_rejects_alien_char(t: Seq<char>, i: int)
    requires
        0 <= i < t.len(),
        !in_alphabet(t[i]),
        t[i] != '=',
    ensures
        decoded(t) is None,
    decreases t.len(),
{
    if t.len() >= 4 && i >= 4 {
        if in_alphabet(t[0]) && in_alphabet(t[1]) && in_alphabet(t[2]) && in_alphabet(t[3]) {
            assert(t.skip(4)[i - 4] == t[i]);
            lemma_decode_rejects_alien_char(t.skip(4), i - 4);
        }
    }
}

/// Text whose length is not a multiple of four decodes to nothing.
pub proof fn lemma_decode_rejects_ragged_length(t: Seq<char>)
    requires
        t.len() % 4 != 0,
    ensures
        decoded(t) is None,
    decreases t.len(),
{
    if t.len() >= 4 {
        lemma_decode_rejects_ragged_length(t.skip(4));
    }
}

/// Encoding works group by group: cutting the bytes at any group
/// boundary cuts the encoded text accordingly.
proof fn lemma_encoded_split(b: Seq<u8>, i: int)
    requires
        0 <= i <= b.len(),
        i % 3 == 0,
    ensures
        encoded(b) == encoded(b.take(i)) + encoded(b.skip(i)),
    decreases i,
{
    if i == 0 {
        assert(b.take(0) =~= Seq::<u8>::empty());
        assert(b.skip(0) =~= b);
        assert(encoded(b) =~= encoded(b.take(0)) + encoded(b.skip(0)));
    } else {
        lemma_encoded_split(b.skip(3), i - 3);
        assert(b.skip(3).take(i - 3) =~= b.take(i).skip(3));
        assert(b.skip(3).skip(i - 3) =~= b.skip(i));
        assert(b.take(i)[0] == b[0] && b.take(i)[1] == b[1] && b.take(i)[2] == b[2]);
        assert(encoded(b) =~= encoded(b.take(i)) + encoded(b.skip(i)));
    }
}

/// Relies on std's String::push: it appends exactly the given
/// character to the end of the string.
#[verifier::external_body]
fn push_char(s: &mut String, c: char)
    ensures
        final(s)@ == old(s)@.push(c),
{
    s.push(c);
}

/// The alphabet character of a six-bit value, as executable code.
fn glyph(v: u8) -> (c: char)
    requires
        v < 64,
    ensures
        c == glyph_of(v),
{
    if v < 26 {
        (65 + v) as char
    } else if v < 52 {
        (97 + (v - 26)) as char
    } else if v < 62 {
        (48 + (v - 52)) as char
    } else if v == 62 {
        '+'
    } else {
        '/'
    }
}

/// Splits a group of three bytes into its four six-bit values.
fn split(b0: u8, b1: u8, b2: u8) -> (r: (u8, u8, u8, u8))
    ensures
        r == split6(b0, b1, b2),
{
    (b0 >> 2, ((b0 & 0x03) << 4) | (b1 >> 4), ((b1 & 0x0f) << 2) | (b2 >> 6), b2 & 0x3f)
}

/// The padded base64 text of the given bytes. Total: every input,
/// the empty one included, has exactly one encoded text.
pub fn encode(bytes: &Vec<u8>) -> (text: String)
    ensures
        text@ == encoded(bytes@),
{
    let len = bytes.len();
    let mut out = String::new();
    let mut i: usize = 0;
    proof {
        assert(bytes@.take(0) =~= Seq::<u8>::empty());
    }
    while len - i >= 3
        invariant
            i % 3 == 0,
            i <= len,
            len == bytes@.len(),
            out@ == encoded(bytes@.take(i as int)),
        decreases len - i,
    {
        let (v0, v1, v2, v3) = split(bytes[i], bytes[i + 1], bytes[i + 2]);
        proof {
            lemma_split6_inverts(bytes@[i as int], bytes@[i + 1], bytes@[i + 2]);
        }
        push_char(&mut out, glyph(v0));
        push_char(&mut out, glyph(v1));
        push_char(&mut out, glyph(v2));
        push_char(&mut out, glyph(v3));
        proof {
            let pre = bytes@.take(i + 3);
            lemma_encoded_split(pre, i as int);
            assert(pre.take(i as int) =~= bytes@.take(i as int));
            let group = pre.skip(i as int);
            assert(group =~= seq![bytes@[i as int], bytes@[i + 1], bytes@[i + 2]]);
            assert(group.skip(3) =~= Seq::<u8>::empty());
            assert(encoded(group) == seq![glyph_of(v0), glyph_of(v1), glyph_of(v2), glyph_of(v3)]
                + encoded(group.skip(3)));
            assert(out@ =~= encoded(bytes@.take(i as int))
                + (seq![glyph_of(v0), glyph_of(v1), glyph_of(v2), glyph_of(v3)]
                + encoded(group.skip(3))));
            assert(out@ =~= encoded(bytes@.take(i + 3)));
        }
        i += 3;
    }
    if i == len {
        proof {
            assert(bytes@.take(len as int) =~= bytes@);
        }
        return out;
    }
    proof {
        lemma_encoded_split(bytes@, i as int);
    }
    let (v0, v1, v2, _v3) = if len - i == 1 {
        split(bytes[i], 0, 0)
    } else {
        split(bytes[i], bytes[i + 1], 0)
    };
    proof {
        if len - i == 1 {
            lemma_split6_inverts(bytes@[i as int], 0, 0);
            assert(bytes@.skip(i as int) =~= seq![bytes@[i as int]]);
        } else {
            lemma_split6_inverts(bytes@[i as int], bytes@[i + 1], 0);
            assert(bytes@.skip(i as int) =~= seq![bytes@[i as int], bytes@[i + 1]]);
        }
    }
    push_char(&mut out, glyph(v0));
    push_char(&mut out, glyph(v1));
    if len - i == 1 {
        push_char(&mut out, '=');
    } else {
        push_char(&mut out, glyph(v2));
    }
    push_char(&mut out, '=');
    proof {
        assert(out@ =~= encoded(bytes@));
    }
    out
}

/// The six-bit value of the alphabet character a byte spells in
/// ASCII, and `None` for every byte that spells no such character.
fn sextet_from_byte(b: u8) -> (r: Option<u8>)
    ensures
        in_alphabet(b as char) ==> r == Some(sextet_of(b as char)),
        !in_alphabet(b as char) ==> r is None,
{
    if 65 <= b && b <= 90 {
        Some(b - 65)
    } else if 97 <= b && b <= 122 {
        Some(b - 97 + 26)
    } else if 48 <= b && b <= 57 {
        Some(b - 48 + 52)
    } else if b == 43 {
        Some(62)
    } else if b == 47 {
        Some(63)
    } else {
        None
    }
}

/// Packs four six-bit values into a group of three bytes.
fn join(v0: u8, v1: u8, v2: u8, v3: u8) -> (r: (u8, u8, u8))
    requires
        v0 < 64 && v1 < 64 && v2 < 64 && v3 < 64,
    ensures
        r == join6(v0, v1, v2, v3),
{
    ((v0 << 2) | (v1 >> 4), (v1 << 4) | (v2 >> 2), (v2 << 6) | v3)
}

/// The error reported for every text that is not canonical padded
/// base64.
fn decode_failure() -> (e: CacheError)
    ensures
        e matches CacheError::Decode(_),
{
    CacheError::Decode("Failed to decode base64: malformed input".to_owned())
}

/// The bytes of a canonical padded base64 text, or a decode error if
/// and only if the text is no such encoding.
pub fn decode(text: &str) -> (r: Result<Vec<u8>, CacheError>)
    ensures
        match r {
            Ok(b) => decoded(text@) == Some(b@),
            Err(e) => decoded(text@) is None && e matches CacheError::Decode(_),
        },
{
    if !text.is_ascii() {
        proof {
            assert(!is_ascii_chars(text@));
            assert(exists|j: int|
                0 <= j < text@.len() && !('\0' <= #[trigger] text@[j] <= '\u{7f}'));
            let j = choose|j: int|
                0 <= j < text@.len() && !('\0' <= #[trigger] text@[j] <= '\u{7f}');
            lemma_decode_rejects_alien_char(text@, j);
        }
        return Err(decode_failure());
    }
    let bytes = text.as_bytes_vec();
    let n = bytes.len();
    proof {
        is_ascii_chars_encode_utf8(text@);
        assert(bytes@.len() == text@.len());
        assert forall|j: int| 0 <= j < text@.len() implies (bytes@[j] as char) == text@[j] by {
            assert(text@[j] as u8 == bytes@[j]);
            assert('\0' <= text@[j] <= '\u{7f}');
        }
    }
    if n == 0 {
        let out: Vec<u8> = Vec::new();
        proof {
            assert(text@ =~= Seq::<char>::empty());
            assert(out@ =~= Seq::<u8>::empty());
        }
        return Ok(out);
    }
    if n % 4 != 0 {
        proof {
            lemma_decode_rejects_ragged_length(text@);
        }
        return Err(decode_failure());
    }
    let mut out: Vec<u8> = Vec::new();
    let mut i: usize = 0;
    proof {
        assert(text@.skip(0) =~= text@);
    }
    while n - i > 4
        invariant
            i % 4 == 0,
            n % 4 == 0,
            i + 4 <= n,
            n == bytes@.len(),
            n == text@.len(),
            forall|j: int| 0 <= j < text@.len() ==> (bytes@[j] as char) == text@[j],
            decoded(text@.skip(i as int)) matches Some(rest) ==> decoded(text@) == Some(
                out@ + rest,
            ),
            decoded(text@.skip(i as int)) is None ==> decoded(text@) is None,
        decreases n - i,
    {
        let s0 = sextet_from_byte(bytes[i]);
        let s1 = sextet_from_byte(bytes[i + 1]);
        let s2 = sextet_from_byte(bytes[i + 2]);
        let s3 = sextet_from_byte(bytes[i + 3]);
        let ghost tail = text@.skip(i as int);
        proof {
            assert(tail.len() == n - i);
            assert(tail[0] == text@[i as int] && tail[1] == text@[i + 1] && tail[2] == text@[i + 2]
                && tail[3] == text@[i + 3]);
            assert(tail.skip(4) =~= text@.skip(i + 4));
        }
        match (s0, s1, s2, s3) {
            (Some(v0), Some(v1), Some(v2), Some(v3)) => {
                proof {
                    lemma_sextet_of_inverts(tail[0]);
                    lemma_sextet_of_inverts(tail[1]);
                    lemma_sextet_of_inverts(tail[2]);
                    lemma_sextet_of_inverts(tail[3]);
                }
                let (b0, b1, b2) = join(v0, v1, v2, v3);
                let ghost out0 = out@;
                out.push(b0);
                out.push(b1);
                out.push(b2);
                proof {
                    if decoded(tail.skip(4)) is Some {
                        let rest = decoded(tail.skip(4))->Some_0;
                        assert(decoded(tail) == Some(seq![b0, b1, b2] + rest));
                        assert(out0 + (seq![b0, b1, b2] + rest) =~= out@ + rest);
                    }
                }
                i += 4;
            },
            _ => {
                proof {
                    assert(decoded(tail) is None);
                }
                return Err(decode_failure());
            },
        }
    }
    // Exactly the last group of four characters is left; padding, if
    // any, may stand only here.
    let s0 = sextet_from_byte(bytes[i]);
    let s1 = sextet_from_byte(bytes[i + 1]);
    let s2 = sextet_from_byte(bytes[i + 2]);
    let s3 = sextet_from_byte(bytes[i + 3]);
    let ghost tail = text@.skip(i as int);
    proof {
        assert(tail.len() == 4);
        assert(tail[0] == text@[i as int] && tail[1] == text@[i + 1] && tail[2] == text@[i + 2]
            && tail[3] == text@[i + 3]);
        assert(tail.skip(4) =~= Seq::<char>::empty());
    }
    match (s0, s1, s2, s3) {
        (Some(v0), Some(v1), Some(v2), Some(v3)) => {
            proof {
                lemma_sextet_of_inverts(tail[0]);
                lemma_sextet_of_inverts(tail[1]);
                lemma_sextet_of_inverts(tail[2]);
                lemma_sextet_of_inverts(tail[3]);
            }
            let (b0, b1, b2) = join(v0, v1, v2, v3);
            let ghost out0 = out@;
            out.push(b0);
            out.push(b1);
            out.push(b2);
            proof {
                assert(decoded(Seq::<char>::empty()) == Some(Seq::<u8>::empty()));
                assert(decoded(tail) == Some(seq![b0, b1, b2] + Seq::<u8>::empty()));
                assert(out0 + (seq![b0, b1, b2] + Seq::<u8>::empty()) =~= out@);
            }
            Ok(out)
        },
        (Some(v0), Some(v1), Some(v2), None) => {
            proof {
                lemma_sextet_of_inverts(tail[0]);
                lemma_sextet_of_inverts(tail[1]);
                lemma_sextet_of_inverts(tail[2]);
            }
            if bytes[i + 3] == 61 && (v2 & 0x03) == 0 {
                let (b0, b1, _b2) = join(v0, v1, v2, 0);
                let ghost out0 = out@;
                out.push(b0);
                out.push(b1);
                proof {
                    assert(decoded(tail) == Some(seq![b0, b1]));
                    assert(out0 + seq![b0, b1] =~= out@);
                }
                Ok(out)
            } else {
                proof {
                    assert(decoded(tail) is None);
                }
                Err(decode_failure())
            }
        },
        (Some(v0), Some(v1), None, None) => {
            proof {
                lemma_sextet_of_inverts(tail[0]);
                lemma_sextet_of_inverts(tail[1]);
            }
            if bytes[i + 2] == 61 && bytes[i + 3] == 61 && (v1 & 0x0f) == 0 {
                let (b0, _b1, _b2) = join(v0, v1, 0, 0);
                let ghost out0 = out@;
                out.push(b0);
                proof {
                    assert(decoded(tail) == Some(seq![b0]));
                    assert(out0 + seq![b0] =~= out@);
                }
                Ok(out)
            } else {
                proof {
                    assert(decoded(tail) is None);
                }
                Err(decode_failure())
            }
        },
        _ => {
            proof {
                assert(decoded(tail) is None);
            }
            Err(decode_failure())
        },
    }
}

} // verus!
