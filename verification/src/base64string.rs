//! The codec engine: transforms between byte sequences and
//! alphabet-encoded text, with byte-exact bit-packing and padding
//! handling.

use crate::alphabet::{lemma_decode_char_agrees, spec_decode_char, Alphabet};
use crate::B64Error;
use vstd::prelude::*;
use vstd::string::StrSliceExecFns;

verus! {

/// An error raised while decoding a [`Base64String`].
#[derive(Debug, Clone, Copy, PartialEq, Eq, Structural)]
pub enum DecodeError {
    /// The engine itself failed; carries the engine's error.
    Base64Error(B64Error),
    /// The decoded bytes do not form valid UTF-8 text.
    InvalidUtf8,
}

/// The padding character used when building encoded text: the alphabet's
/// padding character, or the null character for an unpadded alphabet.
pub open spec fn spec_pad_char<A: Alphabet>() -> char {
    match A::spec_padding() {
        Some(p) => p,
        None => '\0',
    }
}

/// Three bytes packed into a 24-bit value, high byte first.
pub open spec fn pack3(a: u8, b: u8, c: u8) -> u32 {
    ((a as u32) << 16) | ((b as u32) << 8) | (c as u32)
}

/// The first 6-bit field of a 24-bit value, from the most significant end.
pub open spec fn field0(v: u32) -> u8 {
    ((v >> 18) & 0x3F) as u8
}

/// The second 6-bit field of a 24-bit value.
pub open spec fn field1(v: u32) -> u8 {
    ((v >> 12) & 0x3F) as u8
}

/// The third 6-bit field of a 24-bit value.
pub open spec fn field2(v: u32) -> u8 {
    ((v >> 6) & 0x3F) as u8
}

/// The fourth 6-bit field of a 24-bit value.
pub open spec fn field3(v: u32) -> u8 {
    (v & 0x3F) as u8
}

/// Four 6-bit values packed into a 24-bit value, first value at the most
/// significant end.
pub open spec fn pack4(v0: u8, v1: u8, v2: u8, v3: u8) -> u32 {
    ((v0 as u32) << 18) | ((v1 as u32) << 12) | ((v2 as u32) << 6) | (v3 as u32)
}

/// The first byte of a 24-bit value, from the most significant end.
pub open spec fn byte0(w: u32) -> u8 {
    ((w >> 16) & 0xFF) as u8
}

/// The second byte of a 24-bit value.
pub open spec fn byte1(w: u32) -> u8 {
    ((w >> 8) & 0xFF) as u8
}

/// The third byte of a 24-bit value.
pub open spec fn byte2(w: u32) -> u8 {
    (w & 0xFF) as u8
}

/// The four symbols that encode a full 3-byte group.
pub open spec fn spec_encode_triplet<A: Alphabet>(a: u8, b: u8, c: u8) -> Seq<char> {
    let v = pack3(a, b, c);
    seq![
        A::spec_char_at(field0(v) as int),
        A::spec_char_at(field1(v) as int),
        A::spec_char_at(field2(v) as int),
        A::spec_char_at(field3(v) as int),
    ]
}

/// The encoded text for a byte sequence: full 3-byte groups become four
/// symbols each; a trailing 2-byte group becomes three symbols and one
/// padding character; a trailing single byte becomes two symbols and two
/// padding characters.
pub open spec fn spec_encode<A: Alphabet>(bytes: Seq<u8>) -> Seq<char>
    decreases bytes.len(),
{
    if bytes.len() == 0 {
        Seq::empty()
    } else if bytes.len() == 1 {
        let v = pack3(bytes[0], 0, 0);
        seq![
            A::spec_char_at(field0(v) as int),
            A::spec_char_at(field1(v) as int),
            spec_pad_char::<A>(),
            spec_pad_char::<A>(),
        ]
    } else if bytes.len() == 2 {
        let v = pack3(bytes[0], bytes[1], 0);
        seq![
            A::spec_char_at(field0(v) as int),
            A::spec_char_at(field1(v) as int),
            A::spec_char_at(field2(v) as int),
            spec_pad_char::<A>(),
        ]
    } else {
        spec_encode_triplet::<A>(bytes[0], bytes[1], bytes[2]) + spec_encode::<A>(bytes.skip(3))
    }
}

/// Decoding four characters: each decodes to a 6-bit value (first failure
/// wins), and the values are packed and split into three bytes.
pub open spec fn spec_decode_quad<A: Alphabet>(q0: char, q1: char, q2: char, q3: char) -> Result<
    (u8, u8, u8),
    B64Error,
> {
    match spec_decode_char::<A>(q0) {
        Err(e) => Err(e),
        Ok(v0) => match spec_decode_char::<A>(q1) {
            Err(e) => Err(e),
            Ok(v1) => match spec_decode_char::<A>(q2) {
                Err(e) => Err(e),
                Ok(v2) => match spec_decode_char::<A>(q3) {
                    Err(e) => Err(e),
                    Ok(v3) => {
                        let w = pack4(v0, v1, v2, v3);
                        Ok((byte0(w), byte1(w), byte2(w)))
                    },
                },
            },
        },
    }
}

/// How many bytes a group of 2 to 4 encoded characters stands for: a
/// group ending in two padding characters (or of effective length 2)
/// carries one byte; one ending in a single padding character (or of
/// effective length 3) carries two; otherwise three.
pub open spec fn spec_group_arity<A: Alphabet>(g: Seq<char>) -> int {
    if g.len() == 2 {
        1
    } else if g.len() == 3 {
        2
    } else if g[2] == spec_pad_char::<A>() && g[3] == spec_pad_char::<A>() {
        1
    } else if g[3] == spec_pad_char::<A>() {
        2
    } else {
        3
    }
}

/// The bytes carried by a group of 2 to 4 encoded characters; absent
/// trailing positions are filled with the null sentinel before decoding.
pub open spec fn spec_decode_group<A: Alphabet>(g: Seq<char>) -> Result<Seq<u8>, B64Error> {
    let n = spec_group_arity::<A>(g);
    let quad = if n == 1 {
        spec_decode_quad::<A>(g[0], g[1], '\0', '\0')
    } else if n == 2 {
        spec_decode_quad::<A>(g[0], g[1], g[2], '\0')
    } else {
        spec_decode_quad::<A>(g[0], g[1], g[2], g[3])
    };
    match quad {
        Err(e) => Err(e),
        Ok((b0, b1, b2)) => Ok(
            if n == 1 {
                seq![b0]
            } else if n == 2 {
                seq![b0, b1]
            } else {
                seq![b0, b1, b2]
            },
        ),
    }
}

/// The bytes carried by encoded text: groups of four characters are
/// decoded in order (first failure wins); a trailing group of two or
/// three characters is decoded leniently as if it ended in padding; a
/// trailing group of fewer than two characters carries no bytes.
pub open spec fn spec_decode<A: Alphabet>(text: Seq<char>) -> Result<Seq<u8>, B64Error>
    decreases text.len(),
{
    if text.len() < 2 {
        Ok(Seq::empty())
    } else if text.len() < 4 {
        spec_decode_group::<A>(text)
    } else {
        match spec_decode_group::<A>(text.take(4)) {
            Err(e) => Err(e),
            Ok(bs) => match spec_decode::<A>(text.skip(4)) {
                Err(e) => Err(e),
                Ok(rest) => Ok(bs + rest),
            },
        }
    }
}

/// Text normalized for decoding: padded with the alphabet's padding
/// character until its length is a multiple of 4, or left as it stands
/// for an unpadded alphabet.
pub open spec fn spec_normalize<A: Alphabet>(text: Seq<char>) -> Seq<char> {
    match A::spec_padding() {
        None => text,
        Some(p) => text + Seq::new(((4 - text.len() % 4) % 4) as nat, |i: int| p),
    }
}

/// Re-encoding under another alphabet: decode, then encode the bytes.
pub open spec fn spec_change_alphabet<A: Alphabet, B: Alphabet>(text: Seq<char>) -> Result<
    Seq<char>,
    B64Error,
> {
    match spec_decode::<A>(text) {
        Err(e) => Err(e),
        Ok(bs) => Ok(spec_encode::<B>(bs)),
    }
}

/// A decode result extended at the front by already-decoded bytes.
spec fn spec_prepend<T>(prefix: Seq<T>, r: Result<Seq<T>, B64Error>) -> Result<
    Seq<T>,
    B64Error,
> {
    match r {
        Ok(s) => Ok(prefix + s),
        Err(e) => Err(e),
    }
}

/// Prepending nothing leaves a decode result as it is.
proof fn lemma_prepend_empty(r: Result<Seq<u8>, B64Error>)
    ensures
        spec_prepend(Seq::<u8>::empty(), r) == r,
{
    match r {
        Ok(s) => {
            assert(Seq::<u8>::empty() + s =~= s);
        },
        Err(_) => {
        },
    }
}

/// Prepending twice is prepending the concatenation.
proof fn lemma_prepend_assoc(p: Seq<u8>, q: Seq<u8>, r: Result<Seq<u8>, B64Error>)
    ensures
        spec_prepend(p, spec_prepend(q, r)) == spec_prepend(p + q, r),
{
    match r {
        Ok(s) => {
            assert(p + (q + s) =~= (p + q) + s);
        },
        Err(_) => {
        },
    }
}

/// One step of decoding: the first group of four, then the rest.
proof fn lemma_decode_step<A: Alphabet>(text: Seq<char>)
    requires
        text.len() >= 4,
    ensures
        spec_decode::<A>(text) == (match spec_decode_group::<A>(text.take(4)) {
            Err(e) => Err(e),
            Ok(bs) => spec_prepend(bs, spec_decode::<A>(text.skip(4))),
        }),
{
}

/// All four 6-bit fields of a 24-bit value are below 64.
pub proof fn lemma_fields_in_range(v: u32)
    by (bit_vector)
    ensures
        field0(v) < 64,
        field1(v) < 64,
        field2(v) < 64,
        field3(v) < 64,
{
}

/// Unpacking the four fields of a packed 3-byte group gives the three
/// bytes back.
pub proof fn lemma_unpack_triplet(a: u8, b: u8, c: u8)
    by (bit_vector)
    ensures
        ({
            let v = pack3(a, b, c);
            let w = pack4(field0(v), field1(v), field2(v), field3(v));
            byte0(w) == a && byte1(w) == b && byte2(w) == c
        }),
{
}

/// The first two bytes of a packed 2-byte group survive unpacking,
/// whatever value stands in the absent fourth position.
pub proof fn lemma_unpack_doublet(a: u8, b: u8, x3: u8)
    by (bit_vector)
    ensures
        ({
            let v = pack3(a, b, 0);
            let w = pack4(field0(v), field1(v), field2(v), x3);
            byte0(w) == a && byte1(w) == b
        }),
{
}

/// The byte of a packed single-byte group survives unpacking, whatever
/// values stand in the absent third and fourth positions.
pub proof fn lemma_unpack_singlet(a: u8, x2: u8, x3: u8)
    by (bit_vector)
    ensures
        ({
            let v = pack3(a, 0, 0);
            let w = pack4(field0(v), field1(v), x2, x3);
            byte0(w) == a
        }),
{
}

/// Appends one character to an owned string.
///
/// Relies on `String::push`: it appends the given character to the end
/// of the string.
#[verifier::external_body]
fn push_char(s: &mut String, c: char)
    ensures
        final(s)@ == old(s)@.push(c),
{
    s.push(c);
}

/// The characters of a string slice, in order, as a vector.
fn chars_of(s: &str) -> (r: Vec<char>)
    ensures
        r@ == s@,
{
    let n = s.unicode_len();
    let mut v: Vec<char> = Vec::new();
    let mut i: usize = 0;
    while i < n
        invariant
            i <= n,
            n == s@.len(),
            v@ == s@.take(i as int),
        decreases n - i,
    {
        let c = s.get_char(i);
        v.push(c);
        proof {
            assert(s@.take((i + 1) as int) =~= s@.take(i as int).push(s@[i as int]));
        }
        i = i + 1;
    }
    proof {
        assert(s@.take(n as int) =~= s@);
    }
    v
}

/// A string of Base64 encoded data.
#[derive(Debug, Clone)]
pub struct Base64String<A> {
    content: String,
    alphabet: A,
}

impl<A> View for Base64String<A> {
    type V = Seq<char>;

    closed spec fn view(&self) -> Seq<char> {
        self.content@
    }
}

impl<A: Alphabet> Base64String<A> {
    /// Encodes a set of 3 bytes into four alphabet symbols.
    pub fn encode_triplet(triplet: [u8; 3], alphabet: &A) -> (r: Result<[char; 4], B64Error>)
        ensures
            r matches Ok(cs) && cs@ == spec_encode_triplet::<A>(
                triplet@[0],
                triplet@[1],
                triplet@[2],
            ),
    {
        let a = triplet[0];
        let b = triplet[1];
        let c = triplet[2];
        let concated: u32 = ((a as u32) << 16) | ((b as u32) << 8) | (c as u32);
        let first = ((concated >> 18) & 0x3F) as u8;
        let second = ((concated >> 12) & 0x3F) as u8;
        let third = ((concated >> 6) & 0x3F) as u8;
        let fourth = (concated & 0x3F) as u8;
        proof {
            lemma_fields_in_range(concated);
            assert(concated == pack3(a, b, c));
            assert(first == field0(concated) && second == field1(concated) && third == field2(
                concated,
            ) && fourth == field3(concated));
            assert(first < 64 && second < 64 && third < 64 && fourth < 64);
        }
        let c0 = match alphabet.encode_bits(first) {
            Ok(x) => x,
            Err(e) => {
                return Err(e);
            },
        };
        let c1 = match alphabet.encode_bits(second) {
            Ok(x) => x,
            Err(e) => {
                return Err(e);
            },
        };
        let c2 = match alphabet.encode_bits(third) {
            Ok(x) => x,
            Err(e) => {
                return Err(e);
            },
        };
        let c3 = match alphabet.encode_bits(fourth) {
            Ok(x) => x,
            Err(e) => {
                return Err(e);
            },
        };
        let r = [c0, c1, c2, c3];
        proof {
            assert(r@ =~= spec_encode_triplet::<A>(triplet@[0], triplet@[1], triplet@[2]));
        }
        Ok(r)
    }

    /// Encode a sequence of bytes into a [`Base64String`] using a given
    /// `alphabet` instance.
    ///
    /// Always succeeds: the packing keeps every intermediate value
    /// within the 6-bit range.
    pub fn encode_with(bytes: &[u8], alphabet: A) -> (r: Result<Self, B64Error>)
        ensures
            r matches Ok(s) && s@ == spec_encode::<A>(bytes@),
    {
        let padding = match alphabet.padding() {
            Some(p) => p,
            None => '\0',
        };
        let n = bytes.len();
        let mut content = String::new();
        let mut i: usize = 0;
        proof {
            assert(bytes@.skip(0) =~= bytes@);
            assert(content@ + spec_encode::<A>(bytes@) =~= spec_encode::<A>(bytes@));
        }
        while n - i >= 3
            invariant
                i <= n,
                n == bytes@.len(),
                padding == spec_pad_char::<A>(),
                content@ + spec_encode::<A>(bytes@.skip(i as int)) == spec_encode::<A>(bytes@),
            decreases n - i,
        {
            let ghost prev = content@;
            let ghost rest = bytes@.skip(i as int);
            let t = match Self::encode_triplet([bytes[i], bytes[i + 1], bytes[i + 2]], &alphabet) {
                Ok(t) => t,
                Err(e) => {
                    return Err(e);
                },
            };
            push_char(&mut content, t[0]);
            push_char(&mut content, t[1]);
            push_char(&mut content, t[2]);
            push_char(&mut content, t[3]);
            proof {
                assert(rest[0] == bytes@[i as int]);
                assert(rest[1] == bytes@[i as int + 1]);
                assert(rest[2] == bytes@[i as int + 2]);
                assert(rest.skip(3) =~= bytes@.skip(i as int + 3));
                assert(spec_encode::<A>(rest) == spec_encode_triplet::<A>(
                    rest[0],
                    rest[1],
                    rest[2],
                ) + spec_encode::<A>(rest.skip(3)));
                assert(content@ =~= prev + t@);
                assert(content@ + spec_encode::<A>(bytes@.skip(i as int + 3)) =~= prev
                    + spec_encode::<A>(rest));
            }
            i = i + 3;
        }
        let rem = n - i;
        if rem == 1 {
            let ghost prev = content@;
            let ghost rest = bytes@.skip(i as int);
            let t = match Self::encode_triplet([bytes[i], 0, 0], &alphabet) {
                Ok(t) => t,
                Err(e) => {
                    return Err(e);
                },
            };
            push_char(&mut content, t[0]);
            push_char(&mut content, t[1]);
            push_char(&mut content, padding);
            push_char(&mut content, padding);
            proof {
                assert(rest[0] == bytes@[i as int]);
                assert(content@ =~= prev + spec_encode::<A>(rest));
            }
        } else if rem == 2 {
            let ghost prev = content@;
            let ghost rest = bytes@.skip(i as int);
            let t = match Self::encode_triplet([bytes[i], bytes[i + 1], 0], &alphabet) {
                Ok(t) => t,
                Err(e) => {
                    return Err(e);
                },
            };
            push_char(&mut content, t[0]);
            push_char(&mut content, t[1]);
            push_char(&mut content, t[2]);
            push_char(&mut content, padding);
            proof {
                assert(rest[0] == bytes@[i as int]);
                assert(rest[1] == bytes@[i as int + 1]);
                assert(content@ =~= prev + spec_encode::<A>(rest));
            }
        } else {
            proof {
                assert(spec_encode::<A>(bytes@.skip(i as int)) =~= Seq::<char>::empty());
                assert(content@ + Seq::<char>::empty() =~= content@);
            }
        }
        Ok(Base64String { content, alphabet })
    }

    /// Decodes a set of 4 characters into 3 bytes.
    pub fn decode_quad(quad: [char; 4], alphabet: &A) -> (r: Result<[u8; 3], B64Error>)
        ensures
            match spec_decode_quad::<A>(quad@[0], quad@[1], quad@[2], quad@[3]) {
                Ok(t) => r matches Ok(out) && out@ == seq![t.0, t.1, t.2],
                Err(e) => r == Err::<[u8; 3], B64Error>(e),
            },
    {
        let r0 = alphabet.decode_char(quad[0]);
        proof {
            lemma_decode_char_agrees::<A>(quad@[0], r0);
        }
        let v0 = match r0 {
            Ok(v) => v,
            Err(e) => {
                return Err(e);
            },
        };
        let r1 = alphabet.decode_char(quad[1]);
        proof {
            lemma_decode_char_agrees::<A>(quad@[1], r1);
        }
        let v1 = match r1 {
            Ok(v) => v,
            Err(e) => {
                return Err(e);
            },
        };
        let r2 = alphabet.decode_char(quad[2]);
        proof {
            lemma_decode_char_agrees::<A>(quad@[2], r2);
        }
        let v2 = match r2 {
            Ok(v) => v,
            Err(e) => {
                return Err(e);
            },
        };
        let r3 = alphabet.decode_char(quad[3]);
        proof {
            lemma_decode_char_agrees::<A>(quad@[3], r3);
        }
        let v3 = match r3 {
            Ok(v) => v,
            Err(e) => {
                return Err(e);
            },
        };
        let concat: u32 = ((v0 as u32) << 18) | ((v1 as u32) << 12) | ((v2 as u32) << 6) | (
        v3 as u32);
        let out = [
            ((concat >> 16) & 0xFF) as u8,
            ((concat >> 8) & 0xFF) as u8,
            (concat & 0xFF) as u8,
        ];
        proof {
            assert(concat == pack4(v0, v1, v2, v3));
            assert(out@ =~= seq![byte0(concat), byte1(concat), byte2(concat)]);
        }
        Ok(out)
    }

    /// Decode the contents of `self` into a byte sequence.
    pub fn decode(&self) -> (r: Result<Vec<u8>, DecodeError>)
        ensures
            match spec_decode::<A>(self@) {
                Ok(bs) => r matches Ok(v) && v@ == bs,
                Err(e) => r == Err::<Vec<u8>, DecodeError>(DecodeError::Base64Error(e)),
            },
    {
        let padding = match self.alphabet.padding() {
            Some(p) => p,
            None => '\0',
        };
        let chars = chars_of(self.content.as_str());
        let n = chars.len();
        let mut decoded: Vec<u8> = Vec::new();
        let mut i: usize = 0;
        proof {
            assert(self@.skip(0) =~= self@);
            lemma_prepend_empty(spec_decode::<A>(self@));
        }
        while n - i >= 4
            invariant
                i <= n,
                n == chars@.len(),
                chars@ == self@,
                padding == spec_pad_char::<A>(),
                spec_prepend(decoded@, spec_decode::<A>(self@.skip(i as int))) == spec_decode::<A>(
                    self@,
                ),
            decreases n - i,
        {
            let ghost prev = decoded@;
            let ghost rest = self@.skip(i as int);
            let ghost g = rest.take(4);
            let g0 = chars[i];
            let g1 = chars[i + 1];
            let g2 = chars[i + 2];
            let g3 = chars[i + 3];
            proof {
                assert(g.len() == 4);
                assert(g[0] == g0 && g[1] == g1 && g[2] == g2 && g[3] == g3);
                lemma_decode_step::<A>(rest);
                assert(rest.skip(4) =~= self@.skip(i as int + 4));
            }
            let ghost bs: Seq<u8> = Seq::empty();
            if g2 == padding && g3 == padding {
                let t = match Self::decode_quad([g0, g1, '\0', '\0'], &self.alphabet) {
                    Ok(t) => t,
                    Err(e) => {
                        return Err(DecodeError::Base64Error(e));
                    },
                };
                decoded.push(t[0]);
                proof {
                    bs = seq![t@[0]];
                    assert(spec_group_arity::<A>(g) == 1);
                    assert(spec_decode_group::<A>(g) == Ok::<Seq<u8>, B64Error>(bs));
                }
            } else if g3 == padding {
                let t = match Self::decode_quad([g0, g1, g2, '\0'], &self.alphabet) {
                    Ok(t) => t,
                    Err(e) => {
                        return Err(DecodeError::Base64Error(e));
                    },
                };
                decoded.push(t[0]);
                decoded.push(t[1]);
                proof {
                    bs = seq![t@[0], t@[1]];
                    assert(spec_group_arity::<A>(g) == 2);
                    assert(spec_decode_group::<A>(g) == Ok::<Seq<u8>, B64Error>(bs));
                }
            } else {
                let t = match Self::decode_quad([g0, g1, g2, g3], &self.alphabet) {
                    Ok(t) => t,
                    Err(e) => {
                        return Err(DecodeError::Base64Error(e));
                    },
                };
                decoded.push(t[0]);
                decoded.push(t[1]);
                decoded.push(t[2]);
                proof {
                    bs = seq![t@[0], t@[1], t@[2]];
                    assert(spec_group_arity::<A>(g) == 3);
                    assert(spec_decode_group::<A>(g) == Ok::<Seq<u8>, B64Error>(bs));
                }
            }
            proof {
                assert(decoded@ =~= prev + bs);
                lemma_prepend_assoc(prev, bs, spec_decode::<A>(self@.skip(i as int + 4)));
            }
            i = i + 4;
        }
        let rem = n - i;
        if rem == 2 {
            let ghost prev = decoded@;
            let ghost rest = self@.skip(i as int);
            let g0 = chars[i];
            let g1 = chars[i + 1];
            proof {
                assert(rest.len() == 2);
                assert(rest[0] == g0 && rest[1] == g1);
                assert(spec_group_arity::<A>(rest) == 1);
            }
            let t = match Self::decode_quad([g0, g1, '\0', '\0'], &self.alphabet) {
                Ok(t) => t,
                Err(e) => {
                    return Err(DecodeError::Base64Error(e));
                },
            };
            decoded.push(t[0]);
            proof {
                assert(spec_decode_group::<A>(rest) == Ok::<Seq<u8>, B64Error>(seq![t@[0]]));
                assert(decoded@ =~= prev + seq![t@[0]]);
            }
        } else if rem == 3 {
            let ghost prev = decoded@;
            let ghost rest = self@.skip(i as int);
            let g0 = chars[i];
            let g1 = chars[i + 1];
            let g2 = chars[i + 2];
            proof {
                assert(rest.len() == 3);
                assert(rest[0] == g0 && rest[1] == g1 && rest[2] == g2);
                assert(spec_group_arity::<A>(rest) == 2);
            }
            let t = match Self::decode_quad([g0, g1, g2, '\0'], &self.alphabet) {
                Ok(t) => t,
                Err(e) => {
                    return Err(DecodeError::Base64Error(e));
                },
            };
            decoded.push(t[0]);
            decoded.push(t[1]);
            proof {
                assert(spec_decode_group::<A>(rest) == Ok::<Seq<u8>, B64Error>(
                    seq![t@[0], t@[1]],
                ));
                assert(decoded@ =~= prev + seq![t@[0], t@[1]]);
            }
        } else {
            proof {
                assert(self@.skip(i as int).len() < 2);
                assert(decoded@ + Seq::<u8>::empty() =~= decoded@);
            }
        }
        Ok(decoded)
    }

    /// Decode the contents of `self`, appending the bytes to the `buf`
    /// provided; on failure `buf` is left as it was.
    pub fn decode_into(&self, buf: &mut Vec<u8>) -> (r: Result<(), DecodeError>)
        ensures
            match spec_decode::<A>(self@) {
                Ok(bs) => r matches Ok(u) && final(buf)@ == old(buf)@ + bs,
                Err(e) => r == Err::<(), DecodeError>(DecodeError::Base64Error(e)) && final(buf)@
                    == old(buf)@,
            },
    {
        match self.decode() {
            Ok(mut d) => {
                buf.append(&mut d);
                Ok(())
            },
            Err(e) => Err(e),
        }
    }

    /// Decode the contents of `self` into a [`String`]; fails with
    /// `InvalidUtf8` when the decoded bytes are not valid UTF-8 text.
    pub fn decode_to_string(&self) -> (r: Result<String, DecodeError>)
        ensures
            match spec_decode::<A>(self@) {
                Ok(bs) => {
                    if vstd::utf8::valid_utf8(bs) {
                        r matches Ok(s) && s@ == vstd::utf8::decode_utf8(bs)
                    } else {
                        r == Err::<String, DecodeError>(DecodeError::InvalidUtf8)
                    }
                },
                Err(e) => r == Err::<String, DecodeError>(DecodeError::Base64Error(e)),
            },
    {
        match self.decode() {
            Ok(d) => match string_from_utf8(d) {
                Some(s) => Ok(s),
                None => Err(DecodeError::InvalidUtf8),
            },
            Err(e) => Err(e),
        }
    }

    /// Construct a [`Base64String`] from already encoded Base64 text,
    /// normalizing its length to a multiple of 4 by appending the
    /// alphabet's padding character.
    pub fn from_encoded_with(b64: &str, alphabet: A) -> (r: Self)
        ensures
            r@ == spec_normalize::<A>(b64@),
            b64@.len() % 4 == 0 ==> r@ == b64@,
    {
        let mut content = b64.to_owned();
        match alphabet.padding() {
            None => {
                Base64String { content, alphabet }
            },
            Some(p) => {
                let len0 = content.as_str().unicode_len();
                let r4 = len0 % 4;
                if r4 != 0 {
                    let needed = 4 - r4;
                    let mut j: usize = 0;
                    proof {
                        assert(content@ + Seq::new(0, |k: int| p) =~= b64@);
                    }
                    while j < needed
                        invariant
                            j <= needed,
                            needed == 4 - r4,
                            0 < r4 < 4,
                            r4 == b64@.len() % 4,
                            A::spec_padding() == Some(p),
                            content@ == b64@ + Seq::new(j as nat, |k: int| p),
                        decreases needed - j,
                    {
                        push_char(&mut content, p);
                        proof {
                            assert(b64@ + Seq::new((j + 1) as nat, |k: int| p) =~= (b64@ + Seq::new(
                                j as nat,
                                |k: int| p,
                            )).push(p));
                        }
                        j = j + 1;
                    }
                    proof {
                        assert(content@ =~= spec_normalize::<A>(b64@));
                    }
                } else {
                    proof {
                        assert(content@ =~= spec_normalize::<A>(b64@));
                    }
                }
                Base64String { content, alphabet }
            },
        }
    }

    /// The encoded text, padding included.
    pub fn as_str(&self) -> (r: &str)
        ensures
            r@ == self@,
    {
        self.content.as_str()
    }

    /// Returns the encoded string with the padding removed.
    pub fn without_padding(&self) -> (r: String)
        ensures
            r@ == self@.filter(|c: char| c != spec_pad_char::<A>()),
    {
        let padding = match self.alphabet.padding() {
            Some(p) => p,
            None => '\0',
        };
        let chars = chars_of(self.content.as_str());
        let n = chars.len();
        let mut out = String::new();
        let mut i: usize = 0;
        proof {
            reveal(Seq::filter);
            assert(self@.take(0) =~= Seq::<char>::empty());
        }
        while i < n
            invariant
                i <= n,
                n == chars@.len(),
                chars@ == self@,
                padding == spec_pad_char::<A>(),
                out@ == self@.take(i as int).filter(|c: char| c != spec_pad_char::<A>()),
            decreases n - i,
        {
            let c = chars[i];
            if c != padding {
                push_char(&mut out, c);
            }
            proof {
                reveal(Seq::filter);
                let taken = self@.take(i as int + 1);
                assert(taken.drop_last() =~= self@.take(i as int));
                assert(taken.last() == self@[i as int]);
            }
            i = i + 1;
        }
        proof {
            assert(self@.take(n as int) =~= self@);
        }
        out
    }

    /// Change a [`Base64String`] to the specified alphabet `B` using the
    /// given `target_alphabet` instance of `B`, by decoding and
    /// re-encoding the contents.
    pub fn change_alphabet_with<B: Alphabet>(self, target_alphabet: B) -> (r: Result<
        Base64String<B>,
        DecodeError,
    >)
        ensures
            match spec_change_alphabet::<A, B>(self@) {
                Ok(cs) => r matches Ok(s) && s@ == cs,
                Err(e) => r == Err::<Base64String<B>, DecodeError>(DecodeError::Base64Error(e)),
            },
    {
        let inner = match self.decode() {
            Ok(d) => d,
            Err(e) => {
                return Err(e);
            },
        };
        match Base64String::<B>::encode_with(inner.as_slice(), target_alphabet) {
            Ok(s) => Ok(s),
            Err(e) => Err(DecodeError::Base64Error(e)),
        }
    }
}

impl<A: Alphabet + Default> Base64String<A> {
    /// Encode a sequence of bytes into a [`Base64String`], using `A`'s
    /// [`Default`] impl as the alphabet to encode with.
    pub fn encode(bytes: &[u8]) -> (r: Result<Self, B64Error>)
        ensures
            r matches Ok(s) && s@ == spec_encode::<A>(bytes@),
    {
        Self::encode_with(bytes, A::default())
    }

    /// Construct a [`Base64String`] from already encoded Base64, using
    /// `A`'s [`Default`] impl as the alphabet.
    pub fn from_encoded(b64: &str) -> (r: Self)
        ensures
            r@ == spec_normalize::<A>(b64@),
            b64@.len() % 4 == 0 ==> r@ == b64@,
    {
        Self::from_encoded_with(b64, A::default())
    }

    /// Returns a new [`Base64String`] re-encoded under the alphabet `B`,
    /// using `B`'s [`Default`] impl.
    pub fn change_alphabet<B: Alphabet + Default>(self) -> (r: Result<Base64String<B>, DecodeError>)
        ensures
            match spec_change_alphabet::<A, B>(self@) {
                Ok(cs) => r matches Ok(s) && s@ == cs,
                Err(e) => r == Err::<Base64String<B>, DecodeError>(DecodeError::Base64Error(e)),
            },
    {
        self.change_alphabet_with(B::default())
    }
}

impl<A: Alphabet> PartialEq for Base64String<A> {
    /// Two [`Base64String`]s are equal when their encoded contents are,
    /// whatever their alphabet instances.
    fn eq(&self, other: &Self) -> bool {
        self.content == other.content
    }
}

impl<A: Alphabet> vstd::std_specs::cmp::PartialEqSpecImpl for Base64String<A> {
    open spec fn obeys_eq_spec() -> bool {
        true
    }

    open spec fn eq_spec(&self, other: &Self) -> bool {
        self@ == other@
    }
}

/// Turns decoded bytes into an owned string when they are valid UTF-8.
///
/// Relies on `String::from_utf8`: it succeeds exactly on valid UTF-8
/// input, returning the string those bytes encode.
#[verifier::external_body]
fn string_from_utf8(bytes: Vec<u8>) -> (r: Option<String>)
    ensures
        match r {
            Some(s) => vstd::utf8::valid_utf8(bytes@) && s@ == vstd::utf8::decode_utf8(bytes@),
            None => !vstd::utf8::valid_utf8(bytes@),
        },
{
    String::from_utf8(bytes).ok()
}

} // verus!
