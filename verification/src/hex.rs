//! The hexadecimal codec: bytes to and from strings of lowercase hex
//! digits, two digits per byte, high nibble first.

use vstd::prelude::*;

use crate::Error;
use crate::bits::lemma_modes_involution;
use crate::bits::nibble_mode;
use crate::bits::swapped_nibbles;

verus! {

/// Whether `c` is a lowercase hexadecimal digit.
pub open spec fn is_hex_char(c: char) -> bool {
    ('a' as u32 <= c as u32 && c as u32 <= 'f' as u32) || ('0' as u32 <= c as u32 && c as u32
        <= '9' as u32)
}

/// The value of a lowercase hexadecimal digit.
pub open spec fn hex_val(c: char) -> u8
    recommends
        is_hex_char(c),
{
    if 'a' as u32 <= c as u32 {
        (c as u32 - 'a' as u32 + 10) as u8
    } else {
        (c as u32 - '0' as u32) as u8
    }
}

/// The lowercase hexadecimal digit for a four-bit value.
pub open spec fn hex_char(v: u8) -> char
    recommends
        v < 16,
{
    if v == 0 {
        '0'
    } else if v == 1 {
        '1'
    } else if v == 2 {
        '2'
    } else if v == 3 {
        '3'
    } else if v == 4 {
        '4'
    } else if v == 5 {
        '5'
    } else if v == 6 {
        '6'
    } else if v == 7 {
        '7'
    } else if v == 8 {
        '8'
    } else if v == 9 {
        '9'
    } else if v == 10 {
        'a'
    } else if v == 11 {
        'b'
    } else if v == 12 {
        'c'
    } else if v == 13 {
        'd'
    } else if v == 14 {
        'e'
    } else {
        'f'
    }
}

/// The two hexadecimal digits of byte `b`, high nibble first.
pub open spec fn byte_hex(b: u8) -> Seq<char> {
    seq![hex_char(b >> 4), hex_char(b & 0x0f)]
}

/// One pair of characters, checked left to right: the first character
/// outside the lowercase hexadecimal alphabet rejects the pair;
/// otherwise the pair assembles into a byte, the first digit giving the
/// high nibble.
pub open spec fn hex_pair_result(c1: char, c2: char) -> Result<u8, Error> {
    if !is_hex_char(c1) {
        Err(Error::InvalidChar(c1))
    } else if !is_hex_char(c2) {
        Err(Error::InvalidChar(c2))
    } else {
        Ok((hex_val(c1) << 4) | hex_val(c2))
    }
}

/// The hexadecimal encoding of `bytes`: two digits per byte, bytes in
/// input order, each byte's nibbles swapped first when `reversed` is
/// set.
pub open spec fn hex_encode(bytes: Seq<u8>, reversed: bool) -> Seq<char>
    decreases bytes.len(),
{
    if bytes.len() == 0 {
        Seq::<char>::empty()
    } else {
        byte_hex(nibble_mode(bytes[0], reversed)) + hex_encode(bytes.drop_first(), reversed)
    }
}

/// Decoding of a text whose length is even, pair by pair; an error in an
/// earlier pair hides everything after it.
pub open spec fn hex_decode_groups(text: Seq<char>, reversed: bool) -> Result<Seq<u8>, Error>
    recommends
        text.len() % 2 == 0,
    decreases text.len(),
{
    if text.len() < 2 {
        Ok(Seq::<u8>::empty())
    } else {
        match hex_pair_result(text[0], text[1]) {
            Err(e) => Err(e),
            Ok(b) => match hex_decode_groups(text.skip(2), reversed) {
                Ok(rest) => Ok(seq![nibble_mode(b, reversed)] + rest),
                Err(e) => Err(e),
            },
        }
    }
}

/// What decoding a hexadecimal text returns: the bytes of its pairs of
/// digits, or the error of the first offending position.
pub open spec fn hex_decode(text: Seq<char>, reversed: bool) -> Result<Seq<u8>, Error> {
    if text.len() % 2 != 0 {
        Err(Error::InvalidLength { len: text.len() as usize, must_be_multiple_of: 2 })
    } else {
        hex_decode_groups(text, reversed)
    }
}

/// Length law: the hexadecimal encoding has exactly two characters per
/// input byte.
pub proof fn lemma_hex_encode_len(bytes: Seq<u8>, reversed: bool)
    ensures
        hex_encode(bytes, reversed).len() == 2 * bytes.len(),
    decreases bytes.len(),
{
    if bytes.len() > 0 {
        lemma_hex_encode_len(bytes.drop_first(), reversed);
    }
}

/// Encoding distributes over concatenation of byte sequences.
pub proof fn lemma_hex_encode_concat(a: Seq<u8>, b: Seq<u8>, reversed: bool)
    ensures
        hex_encode(a + b, reversed) == hex_encode(a, reversed) + hex_encode(b, reversed),
    decreases a.len(),
{
    if a.len() == 0 {
        assert(a + b =~= b);
        assert(hex_encode(a, reversed) + hex_encode(b, reversed) =~= hex_encode(b, reversed));
    } else {
        assert((a + b).drop_first() =~= a.drop_first() + b);
        lemma_hex_encode_concat(a.drop_first(), b, reversed);
        assert(hex_encode(a + b, reversed) =~= hex_encode(a, reversed) + hex_encode(b, reversed));
    }
}

/// A four-bit value's digit is in the alphabet and maps back to the
/// value.
proof fn lemma_hex_digit_round_trip(v: u8)
    requires
        v < 16,
    ensures
        is_hex_char(hex_char(v)),
        hex_val(hex_char(v)) == v,
{
}

/// Reading back the two digits of a byte gives the byte back.
proof fn lemma_hex_pair_of_byte(b: u8)
    ensures
        hex_pair_result(hex_char(b >> 4), hex_char(b & 0x0f)) == Ok::<u8, Error>(b),
{
    assert(b >> 4 < 16 && b & 0x0f < 16) by (bit_vector);
    lemma_hex_digit_round_trip(b >> 4);
    lemma_hex_digit_round_trip(b & 0x0f);
    assert(((b >> 4) << 4) | (b & 0x0f) == b) by (bit_vector);
}

/// Pair decoding distributes over concatenation of whole pairs, the left
/// part's error taking precedence.
pub proof fn lemma_hex_decode_groups_concat(a: Seq<char>, b: Seq<char>, reversed: bool)
    requires
        a.len() % 2 == 0,
    ensures
        hex_decode_groups(a + b, reversed) == (match hex_decode_groups(a, reversed) {
            Err(e) => Err::<Seq<u8>, Error>(e),
            Ok(va) => match hex_decode_groups(b, reversed) {
                Ok(vb) => Ok::<Seq<u8>, Error>(va + vb),
                Err(e) => Err::<Seq<u8>, Error>(e),
            },
        }),
    decreases a.len(),
{
    if a.len() == 0 {
        assert(a + b =~= b);
        if hex_decode_groups(b, reversed) is Ok {
            let vb = hex_decode_groups(b, reversed)->Ok_0;
            assert(Seq::<u8>::empty() + vb =~= vb);
        }
    } else {
        assert((a + b)[0] == a[0] && (a + b)[1] == a[1]);
        assert((a + b).skip(2) =~= a.skip(2) + b);
        lemma_hex_decode_groups_concat(a.skip(2), b, reversed);
        match hex_pair_result(a[0], a[1]) {
            Err(_) => {},
            Ok(first) => {
                let x = nibble_mode(first, reversed);
                match hex_decode_groups(a.skip(2), reversed) {
                    Err(_) => {},
                    Ok(va_rest) => {
                        match hex_decode_groups(b, reversed) {
                            Err(_) => {},
                            Ok(vb) => {
                                assert(seq![x] + (va_rest + vb) =~= (seq![x] + va_rest) + vb);
                            },
                        }
                    },
                }
            },
        }
    }
}

/// Decoding the encoded pairs of any byte sequence, with the same
/// reversal mode, returns exactly the original bytes.
proof fn lemma_hex_decode_groups_encode(bytes: Seq<u8>, reversed: bool)
    ensures
        hex_decode_groups(hex_encode(bytes, reversed), reversed) == Ok::<Seq<u8>, Error>(bytes),
    decreases bytes.len(),
{
    lemma_hex_encode_len(bytes, reversed);
    if bytes.len() == 0 {
        assert(bytes =~= Seq::<u8>::empty());
    } else {
        let e0 = nibble_mode(bytes[0], reversed);
        let t = hex_encode(bytes, reversed);
        assert(t[0] == hex_char(e0 >> 4) && t[1] == hex_char(e0 & 0x0f));
        lemma_hex_pair_of_byte(e0);
        assert(t.skip(2) =~= hex_encode(bytes.drop_first(), reversed));
        lemma_hex_decode_groups_encode(bytes.drop_first(), reversed);
        lemma_modes_involution(bytes[0], reversed);
        assert(seq![bytes[0]] + bytes.drop_first() =~= bytes);
    }
}

/// A valid digit's value maps back to the digit.
proof fn lemma_hex_char_of_val(c: char)
    requires
        is_hex_char(c),
    ensures
        hex_char(hex_val(c)) == c,
{
}

/// The two digits of the byte assembled from a valid pair are that pair
/// again.
proof fn lemma_byte_hex_of_pair(c1: char, c2: char)
    requires
        is_hex_char(c1),
        is_hex_char(c2),
    ensures
        byte_hex((hex_val(c1) << 4) | hex_val(c2)) == seq![c1, c2],
{
    let v1 = hex_val(c1);
    let v2 = hex_val(c2);
    let b = (v1 << 4) | v2;
    assert((v1 < 16 && v2 < 16 && b == (v1 << 4) | v2) ==> (b >> 4 == v1 && b & 0x0f == v2))
        by (bit_vector);
    lemma_hex_char_of_val(c1);
    lemma_hex_char_of_val(c2);
    assert(byte_hex(b) =~= seq![c1, c2]);
}

/// A text made of whole valid pairs is the encoding of the bytes it
/// decodes to.
proof fn lemma_hex_groups_canonical(text: Seq<char>, reversed: bool)
    requires
        text.len() % 2 == 0,
        hex_decode_groups(text, reversed) is Ok,
    ensures
        hex_encode(hex_decode_groups(text, reversed)->Ok_0, reversed) == text,
    decreases text.len(),
{
    if text.len() < 2 {
        assert(text =~= Seq::<char>::empty());
    } else {
        let b0 = hex_pair_result(text[0], text[1])->Ok_0;
        let x = nibble_mode(b0, reversed);
        lemma_hex_groups_canonical(text.skip(2), reversed);
        let rest = hex_decode_groups(text.skip(2), reversed)->Ok_0;
        let v = hex_decode_groups(text, reversed)->Ok_0;
        assert(v == seq![x] + rest);
        assert(v.drop_first() =~= rest);
        lemma_modes_involution(b0, reversed);
        lemma_byte_hex_of_pair(text[0], text[1]);
        assert(hex_encode(v, reversed) =~= text);
    }
}

/// Canonical-form law: a text that decodes successfully is exactly the
/// encoding, in the same reversal mode, of the bytes it decodes to.
pub proof fn lemma_hex_decode_canonical(text: Seq<char>, reversed: bool)
    requires
        hex_decode(text, reversed) is Ok,
    ensures
        hex_encode(hex_decode(text, reversed)->Ok_0, reversed) == text,
{
    lemma_hex_groups_canonical(text, reversed);
}

/// Round-trip law: decoding the hexadecimal encoding of any byte
/// sequence, with the same reversal mode, returns exactly the original
/// bytes.
pub proof fn lemma_hex_round_trip(bytes: Seq<u8>, reversed: bool)
    ensures
        hex_decode(hex_encode(bytes, reversed), reversed) == Ok::<Seq<u8>, Error>(bytes),
{
    lemma_hex_encode_len(bytes, reversed);
    assert((2 * bytes.len()) % 2 == 0) by (nonlinear_arith);
    lemma_hex_decode_groups_encode(bytes, reversed);
}

/// The one-character string that prints a four-bit value as a lowercase
/// hexadecimal digit.
fn hex_digit_str(v: u8) -> (r: &'static str)
    requires
        v < 16,
    ensures
        r@ == seq![hex_char(v)],
{
    proof {
        reveal_strlit("0");
        reveal_strlit("1");
        reveal_strlit("2");
        reveal_strlit("3");
        reveal_strlit("4");
        reveal_strlit("5");
        reveal_strlit("6");
        reveal_strlit("7");
        reveal_strlit("8");
        reveal_strlit("9");
        reveal_strlit("a");
        reveal_strlit("b");
        reveal_strlit("c");
        reveal_strlit("d");
        reveal_strlit("e");
        reveal_strlit("f");
    }
    let r = if v == 0 {
        "0"
    } else if v == 1 {
        "1"
    } else if v == 2 {
        "2"
    } else if v == 3 {
        "3"
    } else if v == 4 {
        "4"
    } else if v == 5 {
        "5"
    } else if v == 6 {
        "6"
    } else if v == 7 {
        "7"
    } else if v == 8 {
        "8"
    } else if v == 9 {
        "9"
    } else if v == 10 {
        "a"
    } else if v == 11 {
        "b"
    } else if v == 12 {
        "c"
    } else if v == 13 {
        "d"
    } else if v == 14 {
        "e"
    } else {
        "f"
    };
    proof {
        assert(r@ =~= seq![hex_char(v)]);
    }
    r
}

/// Encode `bytes` as a lowercase hexadecimal string: two digits per
/// byte, high nibble first; in reversed mode each byte's nibbles are
/// swapped before formatting.
pub fn to_hex_str(bytes: &[u8], reversed: bool) -> (s: String)
    ensures
        s@ == hex_encode(bytes@, reversed),
{
    let mut s = String::new();
    let n = bytes.len();
    let mut i: usize = 0;
    while i < n
        invariant
            n == bytes@.len(),
            i <= n,
            s@ == hex_encode(bytes@.take(i as int), reversed),
        decreases n - i,
    {
        let b = bytes[i];
        let eb = if reversed {
            swapped_nibbles(b)
        } else {
            b
        };
        proof {
            assert(eb >> 4 < 16 && eb & 0x0f < 16) by (bit_vector);
        }
        s.append(hex_digit_str(eb >> 4));
        s.append(hex_digit_str(eb & 0x0f));
        proof {
            let prefix = bytes@.take(i as int);
            let one = seq![bytes@[i as int]];
            lemma_hex_encode_concat(prefix, one, reversed);
            assert(one.drop_first() =~= Seq::<u8>::empty());
            assert(hex_encode(Seq::<u8>::empty(), reversed) == Seq::<char>::empty());
            assert(hex_encode(one, reversed) =~= byte_hex(eb));
            assert(s@ =~= hex_encode(prefix, reversed) + byte_hex(eb));
            assert(bytes@.take(i as int + 1) =~= prefix + one);
        }
        i += 1;
    }
    proof {
        assert(bytes@.take(n as int) =~= bytes@);
    }
    s
}

/// Whether `c` is one of the characters a hexadecimal text may hold:
/// 'a' to 'f' or '0' to '9', lowercase only.
fn is_valid_hex_char(c: char) -> (r: bool)
    ensures
        r == is_hex_char(c),
{
    let u = c as u32;
    ('a' as u32 <= u && u <= 'f' as u32) || ('0' as u32 <= u && u <= '9' as u32)
}

/// The four-bit value of one lowercase hexadecimal digit.
fn parse_hex_digit(c: char) -> (v: u8)
    requires
        is_hex_char(c),
    ensures
        v == hex_val(c),
        v < 16,
{
    let u = c as u32;
    if 'a' as u32 <= u {
        (u - 'a' as u32) as u8 + 10
    } else {
        (u - '0' as u32) as u8
    }
}

/// Decode a lowercase hexadecimal string: the text's length must be
/// even and every character one of '0'-'9' and 'a'-'f'; in reversed mode
/// each assembled byte has its nibbles swapped before it is appended.
pub fn from_hex_str(s: &str, reversed: bool) -> (r: Result<Vec<u8>, Error>)
    ensures
        (match r {
            Ok(v) => hex_decode(s@, reversed) == Ok::<Seq<u8>, Error>(v@),
            Err(e) => hex_decode(s@, reversed) == Err::<Seq<u8>, Error>(e),
        }),
{
    let n = s.unicode_len();
    if n % 2 != 0 {
        return Err(Error::InvalidLength { len: n, must_be_multiple_of: 2 });
    }
    let pairs = n / 2;
    proof {
        assert(n == 2 * pairs);
    }
    let mut out: Vec<u8> = Vec::new();
    let mut i: usize = 0;
    while i < pairs
        invariant
            s@.len() == n,
            n == 2 * pairs,
            i <= pairs,
            out@.len() == i,
            hex_decode_groups(s@.take(2 * i as int), reversed) == Ok::<Seq<u8>, Error>(out@),
        decreases pairs - i,
    {
        let p = 2 * i;
        let ghost done = s@.take(2 * i as int);
        let ghost rest = s@.skip(2 * i as int);
        let c1 = s.get_char(p);
        if !is_valid_hex_char(c1) {
            proof {
                lemma_hex_decode_groups_concat(done, rest, reversed);
                assert(done + rest =~= s@);
                assert(rest[0] == c1);
            }
            return Err(Error::InvalidChar(c1));
        }
        let c2 = s.get_char(p + 1);
        if !is_valid_hex_char(c2) {
            proof {
                lemma_hex_decode_groups_concat(done, rest, reversed);
                assert(done + rest =~= s@);
                assert(rest[0] == c1 && rest[1] == c2);
            }
            return Err(Error::InvalidChar(c2));
        }
        let v1 = parse_hex_digit(c1);
        let v2 = parse_hex_digit(c2);
        let b = (v1 << 4) | v2;
        let ob = if reversed {
            swapped_nibbles(b)
        } else {
            b
        };
        let ghost prev = out@;
        out.push(ob);
        proof {
            let pair = s@.subrange(p as int, p as int + 2);
            lemma_hex_decode_groups_concat(done, pair, reversed);
            assert(done + pair =~= s@.take(2 * (i + 1) as int));
            assert(pair[0] == c1 && pair[1] == c2);
            assert(pair.skip(2) =~= Seq::<char>::empty());
            assert(hex_decode_groups(Seq::<char>::empty(), reversed) == Ok::<Seq<u8>, Error>(
                Seq::<u8>::empty(),
            ));
            assert(hex_pair_result(c1, c2) == Ok::<u8, Error>(b));
            assert(seq![nibble_mode(b, reversed)] + Seq::<u8>::empty() =~= seq![
                nibble_mode(b, reversed),
            ]);
            assert(hex_decode_groups(pair, reversed) == Ok::<Seq<u8>, Error>(
                seq![nibble_mode(b, reversed)],
            ));
            assert(out@ =~= prev + seq![nibble_mode(b, reversed)]);
        }
        i += 1;
    }
    proof {
        assert(s@.take(2 * pairs as int) =~= s@);
    }
    Ok(out)
}

} // verus!
