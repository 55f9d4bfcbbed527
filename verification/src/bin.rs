//! The binary-digit codec: bytes to and from strings of '0' and '1',
//! eight digits per byte, most significant bit first.

use vstd::prelude::*;

use crate::Error;
use crate::bits::bit;
use crate::bits::bit_mode;
use crate::bits::lemma_modes_involution;
use crate::bits::reversed_bits;

verus! {

/// The character for one bit value.
pub open spec fn bin_digit_char(v: u8) -> char {
    if v == 1 {
        '1'
    } else {
        '0'
    }
}

/// Whether `c` is a binary digit.
pub open spec fn is_bin_char(c: char) -> bool {
    c == '0' || c == '1'
}

/// The bit value of a binary digit character.
pub open spec fn bin_val(c: char) -> u8 {
    if c == '1' {
        1
    } else {
        0
    }
}

/// The eight binary digits of byte `b`, most significant bit first.
pub open spec fn byte_bits(b: u8) -> Seq<char> {
    Seq::new(8, |i: int| bin_digit_char(bit(b, (7 - i) as u8)))
}

/// The byte assembled from eight binary digit characters, the first
/// character giving the most significant bit.
pub open spec fn byte_of_bits(g: Seq<char>) -> u8
    recommends
        g.len() == 8,
{
    (bin_val(g[0]) << 7) | (bin_val(g[1]) << 6) | (bin_val(g[2]) << 5) | (bin_val(g[3]) << 4) | (
    bin_val(g[4]) << 3) | (bin_val(g[5]) << 2) | (bin_val(g[6]) << 1) | bin_val(g[7])
}

/// One group of eight characters, scanned left to right: the first
/// character outside {'0','1'} rejects the group; otherwise the group
/// assembles into a byte.
pub open spec fn bin_group_result(g: Seq<char>) -> Result<u8, Error>
    recommends
        g.len() == 8,
{
    if !is_bin_char(g[0]) {
        Err(Error::InvalidChar(g[0]))
    } else if !is_bin_char(g[1]) {
        Err(Error::InvalidChar(g[1]))
    } else if !is_bin_char(g[2]) {
        Err(Error::InvalidChar(g[2]))
    } else if !is_bin_char(g[3]) {
        Err(Error::InvalidChar(g[3]))
    } else if !is_bin_char(g[4]) {
        Err(Error::InvalidChar(g[4]))
    } else if !is_bin_char(g[5]) {
        Err(Error::InvalidChar(g[5]))
    } else if !is_bin_char(g[6]) {
        Err(Error::InvalidChar(g[6]))
    } else if !is_bin_char(g[7]) {
        Err(Error::InvalidChar(g[7]))
    } else {
        Ok(byte_of_bits(g))
    }
}

/// The binary-digit encoding of `bytes`: eight digits per byte, bytes in
/// input order, each byte bit-reversed first when `reversed` is set.
pub open spec fn bin_encode(bytes: Seq<u8>, reversed: bool) -> Seq<char>
    decreases bytes.len(),
{
    if bytes.len() == 0 {
        Seq::<char>::empty()
    } else {
        byte_bits(bit_mode(bytes[0], reversed)) + bin_encode(bytes.drop_first(), reversed)
    }
}

/// Decoding of a text whose length is a multiple of eight, group by
/// group; an error in an earlier group hides everything after it.
pub open spec fn bin_decode_groups(text: Seq<char>, reversed: bool) -> Result<Seq<u8>, Error>
    recommends
        text.len() % 8 == 0,
    decreases text.len(),
{
    if text.len() < 8 {
        Ok(Seq::<u8>::empty())
    } else {
        match bin_group_result(text.subrange(0, 8)) {
            Err(e) => Err(e),
            Ok(b) => match bin_decode_groups(text.skip(8), reversed) {
                Ok(rest) => Ok(seq![bit_mode(b, reversed)] + rest),
                Err(e) => Err(e),
            },
        }
    }
}

/// What decoding a binary-digit text returns: the bytes of its groups of
/// eight digits, or the error of the first offending position.
pub open spec fn bin_decode(text: Seq<char>, reversed: bool) -> Result<Seq<u8>, Error> {
    if text.len() % 8 != 0 {
        Err(Error::InvalidLength { len: text.len() as usize, must_be_multiple_of: 8 })
    } else {
        bin_decode_groups(text, reversed)
    }
}

/// Length law: the binary-digit encoding has exactly eight characters
/// per input byte.
pub proof fn lemma_bin_encode_len(bytes: Seq<u8>, reversed: bool)
    ensures
        bin_encode(bytes, reversed).len() == 8 * bytes.len(),
    decreases bytes.len(),
{
    if bytes.len() > 0 {
        lemma_bin_encode_len(bytes.drop_first(), reversed);
    }
}

/// Encoding distributes over concatenation of byte sequences.
pub proof fn lemma_bin_encode_concat(a: Seq<u8>, b: Seq<u8>, reversed: bool)
    ensures
        bin_encode(a + b, reversed) == bin_encode(a, reversed) + bin_encode(b, reversed),
    decreases a.len(),
{
    if a.len() == 0 {
        assert(a + b =~= b);
        assert(bin_encode(a, reversed) + bin_encode(b, reversed) =~= bin_encode(b, reversed));
    } else {
        assert((a + b).drop_first() =~= a.drop_first() + b);
        lemma_bin_encode_concat(a.drop_first(), b, reversed);
        assert(bin_encode(a + b, reversed) =~= bin_encode(a, reversed) + bin_encode(b, reversed));
    }
}

/// Every character in the digits of a byte is a binary digit, and there
/// are eight of them.
pub proof fn lemma_byte_bits_valid(b: u8)
    ensures
        byte_bits(b).len() == 8,
        forall|i: int| 0 <= i < 8 ==> is_bin_char(#[trigger] byte_bits(b)[i]),
{
}

/// Assembling the eight digits of a byte gives the byte back.
pub proof fn lemma_byte_of_bits_of_byte(b: u8)
    ensures
        byte_of_bits(byte_bits(b)) == b,
{
    let g = byte_bits(b);
    assert(bit(b, 7) <= 1 && bit(b, 6) <= 1 && bit(b, 5) <= 1 && bit(b, 4) <= 1 && bit(b, 3) <= 1
        && bit(b, 2) <= 1 && bit(b, 1) <= 1 && bit(b, 0) <= 1) by (bit_vector);
    assert(bin_val(g[0]) == bit(b, 7));
    assert(bin_val(g[1]) == bit(b, 6));
    assert(bin_val(g[2]) == bit(b, 5));
    assert(bin_val(g[3]) == bit(b, 4));
    assert(bin_val(g[4]) == bit(b, 3));
    assert(bin_val(g[5]) == bit(b, 2));
    assert(bin_val(g[6]) == bit(b, 1));
    assert(bin_val(g[7]) == bit(b, 0));
    assert((bit(b, 7) << 7) | (bit(b, 6) << 6) | (bit(b, 5) << 5) | (bit(b, 4) << 4) | (bit(b, 3)
        << 3) | (bit(b, 2) << 2) | (bit(b, 1) << 1) | bit(b, 0) == b) by (bit_vector);
}

/// Group decoding distributes over concatenation of whole groups, the
/// left part's error taking precedence.
pub proof fn lemma_bin_decode_groups_concat(a: Seq<char>, b: Seq<char>, reversed: bool)
    requires
        a.len() % 8 == 0,
    ensures
        bin_decode_groups(a + b, reversed) == (match bin_decode_groups(a, reversed) {
            Err(e) => Err::<Seq<u8>, Error>(e),
            Ok(va) => match bin_decode_groups(b, reversed) {
                Ok(vb) => Ok::<Seq<u8>, Error>(va + vb),
                Err(e) => Err::<Seq<u8>, Error>(e),
            },
        }),
    decreases a.len(),
{
    if a.len() == 0 {
        assert(a + b =~= b);
        if bin_decode_groups(b, reversed) is Ok {
            let vb = bin_decode_groups(b, reversed)->Ok_0;
            assert(Seq::<u8>::empty() + vb =~= vb);
        }
    } else {
        assert((a + b).subrange(0, 8) =~= a.subrange(0, 8));
        assert((a + b).skip(8) =~= a.skip(8) + b);
        lemma_bin_decode_groups_concat(a.skip(8), b, reversed);
        match bin_group_result(a.subrange(0, 8)) {
            Err(_) => {},
            Ok(first) => {
                let x = bit_mode(first, reversed);
                match bin_decode_groups(a.skip(8), reversed) {
                    Err(_) => {},
                    Ok(va_rest) => {
                        match bin_decode_groups(b, reversed) {
                            Err(_) => {},
                            Ok(vb) => {
                                assert(seq![x] + (va_rest + vb) =~= (seq![x] + va_rest) + vb);
                            },
                        }
                    },
                }
            },
        }
    }
}

/// Decoding the encoded groups of any byte sequence, with the same
/// reversal mode, returns exactly the original bytes.
proof fn lemma_bin_decode_groups_encode(bytes: Seq<u8>, reversed: bool)
    ensures
        bin_decode_groups(bin_encode(bytes, reversed), reversed) == Ok::<Seq<u8>, Error>(bytes),
    decreases bytes.len(),
{
    lemma_bin_encode_len(bytes, reversed);
    if bytes.len() == 0 {
        assert(bytes =~= Seq::<u8>::empty());
    } else {
        let e0 = bit_mode(bytes[0], reversed);
        let t = bin_encode(bytes, reversed);
        lemma_byte_bits_valid(e0);
        assert(t.subrange(0, 8) =~= byte_bits(e0));
        lemma_byte_of_bits_of_byte(e0);
        assert(bin_group_result(t.subrange(0, 8)) == Ok::<u8, Error>(e0));
        assert(t.skip(8) =~= bin_encode(bytes.drop_first(), reversed));
        lemma_bin_decode_groups_encode(bytes.drop_first(), reversed);
        lemma_modes_involution(bytes[0], reversed);
        assert(seq![bytes[0]] + bytes.drop_first() =~= bytes);
    }
}

/// The digits of the byte assembled from eight binary digits are those
/// eight digits again.
proof fn lemma_byte_bits_of_bits(g: Seq<char>)
    requires
        g.len() == 8,
        forall|i: int| 0 <= i < 8 ==> is_bin_char(#[trigger] g[i]),
    ensures
        byte_bits(byte_of_bits(g)) == g,
{
    let v0 = bin_val(g[0]);
    let v1 = bin_val(g[1]);
    let v2 = bin_val(g[2]);
    let v3 = bin_val(g[3]);
    let v4 = bin_val(g[4]);
    let v5 = bin_val(g[5]);
    let v6 = bin_val(g[6]);
    let v7 = bin_val(g[7]);
    let b = byte_of_bits(g);
    assert(b == (v0 << 7) | (v1 << 6) | (v2 << 5) | (v3 << 4) | (v4 << 3) | (v5 << 2) | (v6 << 1)
        | v7);
    assert((v0 <= 1 && v1 <= 1 && v2 <= 1 && v3 <= 1 && v4 <= 1 && v5 <= 1 && v6 <= 1 && v7 <= 1
        && b == (v0 << 7) | (v1 << 6) | (v2 << 5) | (v3 << 4) | (v4 << 3) | (v5 << 2) | (v6 << 1)
        | v7) ==> ((b >> 7) & 1 == v0 && (b >> 6) & 1 == v1 && (b >> 5) & 1 == v2 && (b >> 4) & 1
        == v3 && (b >> 3) & 1 == v4 && (b >> 2) & 1 == v5 && (b >> 1) & 1 == v6 && (b >> 0) & 1
        == v7)) by (bit_vector);
    assert(byte_bits(b)[0] == g[0]);
    assert(byte_bits(b)[1] == g[1]);
    assert(byte_bits(b)[2] == g[2]);
    assert(byte_bits(b)[3] == g[3]);
    assert(byte_bits(b)[4] == g[4]);
    assert(byte_bits(b)[5] == g[5]);
    assert(byte_bits(b)[6] == g[6]);
    assert(byte_bits(b)[7] == g[7]);
    assert(byte_bits(b) =~= g);
}

/// A text made of whole valid groups is the encoding of the bytes it
/// decodes to.
proof fn lemma_bin_groups_canonical(text: Seq<char>, reversed: bool)
    requires
        text.len() % 8 == 0,
        bin_decode_groups(text, reversed) is Ok,
    ensures
        bin_encode(bin_decode_groups(text, reversed)->Ok_0, reversed) == text,
    decreases text.len(),
{
    if text.len() < 8 {
        assert(text =~= Seq::<char>::empty());
    } else {
        let g = text.subrange(0, 8);
        let b0 = bin_group_result(g)->Ok_0;
        let x = bit_mode(b0, reversed);
        lemma_bin_groups_canonical(text.skip(8), reversed);
        let rest = bin_decode_groups(text.skip(8), reversed)->Ok_0;
        let v = bin_decode_groups(text, reversed)->Ok_0;
        assert(v == seq![x] + rest);
        assert(v.drop_first() =~= rest);
        lemma_modes_involution(b0, reversed);
        lemma_byte_bits_of_bits(g);
        assert(bin_encode(v, reversed) =~= text);
    }
}

/// Canonical-form law: a text that decodes successfully is exactly the
/// encoding, in the same reversal mode, of the bytes it decodes to.
pub proof fn lemma_bin_decode_canonical(text: Seq<char>, reversed: bool)
    requires
        bin_decode(text, reversed) is Ok,
    ensures
        bin_encode(bin_decode(text, reversed)->Ok_0, reversed) == text,
{
    lemma_bin_groups_canonical(text, reversed);
}

/// Round-trip law: decoding the binary-digit encoding of any byte
/// sequence, with the same reversal mode, returns exactly the original
/// bytes.
pub proof fn lemma_bin_round_trip(bytes: Seq<u8>, reversed: bool)
    ensures
        bin_decode(bin_encode(bytes, reversed), reversed) == Ok::<Seq<u8>, Error>(bytes),
{
    lemma_bin_encode_len(bytes, reversed);
    assert((8 * bytes.len()) % 8 == 0) by (nonlinear_arith);
    lemma_bin_decode_groups_encode(bytes, reversed);
}

/// Encode `bytes` as a binary-digit string: eight digits per byte, most
/// significant bit first; in reversed mode each byte's bit order is
/// reversed before formatting.
pub fn to_bin_str(bytes: &[u8], reversed: bool) -> (s: String)
    ensures
        s@ == bin_encode(bytes@, reversed),
{
    let mut s = String::new();
    let n = bytes.len();
    let mut i: usize = 0;
    while i < n
        invariant
            n == bytes@.len(),
            i <= n,
            s@ == bin_encode(bytes@.take(i as int), reversed),
        decreases n - i,
    {
        let b = bytes[i];
        let eb = if reversed {
            reversed_bits(b)
        } else {
            b
        };
        let mut j: usize = 0;
        while j < 8
            invariant
                i < n,
                n == bytes@.len(),
                j <= 8,
                eb == bit_mode(bytes@[i as int], reversed),
                s@ == bin_encode(bytes@.take(i as int), reversed) + byte_bits(eb).take(j as int),
            decreases 8 - j,
        {
            let k: u8 = (7 - j) as u8;
            proof {
                assert(byte_bits(eb)[j as int] == bin_digit_char(bit(eb, k)));
            }
            if ((eb >> k) & 1) == 1 {
                s.append("1");
                proof {
                    reveal_strlit("1");
                    assert(s@ =~= bin_encode(bytes@.take(i as int), reversed) + byte_bits(eb).take(
                    j as int + 1));
                }
            } else {
                s.append("0");
                proof {
                    reveal_strlit("0");
                    assert(s@ =~= bin_encode(bytes@.take(i as int), reversed) + byte_bits(eb).take(
                    j as int + 1));
                }
            }
            j += 1;
        }
        proof {
            let prefix = bytes@.take(i as int);
            let one = seq![bytes@[i as int]];
            assert(byte_bits(eb).take(8) =~= byte_bits(eb));
            lemma_bin_encode_concat(prefix, one, reversed);
            assert(one.drop_first() =~= Seq::<u8>::empty());
            assert(bin_encode(Seq::<u8>::empty(), reversed) == Seq::<char>::empty());
            assert(bin_encode(one, reversed) =~= byte_bits(eb));
            assert(bytes@.take(i as int + 1) =~= prefix + one);
        }
        i += 1;
    }
    proof {
        assert(bytes@.take(n as int) =~= bytes@);
    }
    s
}

/// The bit value of one scanned character, or the character itself as
/// the error it raises.
fn bin_char_value(c: char) -> (r: Result<u8, Error>)
    ensures
        r == (if is_bin_char(c) {
            Ok::<u8, Error>(bin_val(c))
        } else {
            Err::<u8, Error>(Error::InvalidChar(c))
        }),
{
    if c == '0' {
        Ok(0)
    } else if c == '1' {
        Ok(1)
    } else {
        Err(Error::InvalidChar(c))
    }
}

/// One group of eight characters of `s` starting at `p`, scanned left to
/// right into a byte.
fn bin_group_byte(s: &str, p: usize) -> (r: Result<u8, Error>)
    requires
        p + 8 <= s@.len(),
        s@.len() <= usize::MAX,
    ensures
        r == bin_group_result(s@.subrange(p as int, p as int + 8)),
{
    let ghost g = s@.subrange(p as int, p as int + 8);
    let v0 = match bin_char_value(s.get_char(p)) {
        Ok(v) => v,
        Err(e) => { return Err(e) },
    };
    let v1 = match bin_char_value(s.get_char(p + 1)) {
        Ok(v) => v,
        Err(e) => { return Err(e) },
    };
    let v2 = match bin_char_value(s.get_char(p + 2)) {
        Ok(v) => v,
        Err(e) => { return Err(e) },
    };
    let v3 = match bin_char_value(s.get_char(p + 3)) {
        Ok(v) => v,
        Err(e) => { return Err(e) },
    };
    let v4 = match bin_char_value(s.get_char(p + 4)) {
        Ok(v) => v,
        Err(e) => { return Err(e) },
    };
    let v5 = match bin_char_value(s.get_char(p + 5)) {
        Ok(v) => v,
        Err(e) => { return Err(e) },
    };
    let v6 = match bin_char_value(s.get_char(p + 6)) {
        Ok(v) => v,
        Err(e) => { return Err(e) },
    };
    let v7 = match bin_char_value(s.get_char(p + 7)) {
        Ok(v) => v,
        Err(e) => { return Err(e) },
    };
    let b = (v0 << 7) | (v1 << 6) | (v2 << 5) | (v3 << 4) | (v4 << 3) | (v5 << 2) | (v6 << 1) | v7;
    proof {
        assert(b == byte_of_bits(g));
    }
    Ok(b)
}

/// Decode a binary-digit string: the text's length must be a multiple of
/// eight and every character one of '0' and '1'; in reversed mode each
/// assembled byte has its bit order reversed before it is appended.
pub fn from_bin_str(s: &str, reversed: bool) -> (r: Result<Vec<u8>, Error>)
    ensures
        (match r {
            Ok(v) => bin_decode(s@, reversed) == Ok::<Seq<u8>, Error>(v@),
            Err(e) => bin_decode(s@, reversed) == Err::<Seq<u8>, Error>(e),
        }),
{
    let n = s.unicode_len();
    if n % 8 != 0 {
        return Err(Error::InvalidLength { len: n, must_be_multiple_of: 8 });
    }
    let groups = n / 8;
    proof {
        assert(n == 8 * groups);
    }
    let mut out: Vec<u8> = Vec::new();
    let mut i: usize = 0;
    while i < groups
        invariant
            s@.len() == n,
            n == 8 * groups,
            i <= groups,
            out@.len() == i,
            bin_decode_groups(s@.take(8 * i as int), reversed) == Ok::<Seq<u8>, Error>(out@),
        decreases groups - i,
    {
        let p = 8 * i;
        let ghost done = s@.take(8 * i as int);
        let ghost g = s@.subrange(p as int, p as int + 8);
        match bin_group_byte(s, p) {
            Err(e) => {
                proof {
                    let rest = s@.skip(8 * i as int);
                    lemma_bin_decode_groups_concat(done, rest, reversed);
                    assert(done + rest =~= s@);
                    assert(rest.subrange(0, 8) =~= g);
                    assert(bin_decode_groups(rest, reversed) == Err::<Seq<u8>, Error>(e));
                }
                return Err(e);
            },
            Ok(b) => {
                let ob = if reversed {
                    reversed_bits(b)
                } else {
                    b
                };
                let ghost prev = out@;
                out.push(ob);
                proof {
                    lemma_bin_decode_groups_concat(done, g, reversed);
                    assert(done + g =~= s@.take(8 * (i + 1) as int));
                    assert(g.subrange(0, 8) =~= g);
                    assert(g.skip(8) =~= Seq::<char>::empty());
                    assert(bin_decode_groups(Seq::<char>::empty(), reversed) == Ok::<
                        Seq<u8>,
                        Error,
                    >(Seq::<u8>::empty()));
                    assert(seq![bit_mode(b, reversed)] + Seq::<u8>::empty() =~= seq![
                        bit_mode(b, reversed),
                    ]);
                    assert(bin_decode_groups(g, reversed) == Ok::<Seq<u8>, Error>(
                        seq![bit_mode(b, reversed)],
                    ));
                    assert(out@ =~= prev + seq![bit_mode(b, reversed)]);
                }
                i += 1;
            },
        }
    }
    proof {
        assert(s@.take(8 * groups as int) =~= s@);
    }
    Ok(out)
}

} // verus!
