//! Base64 alphabets: the mapping between 6-bit values and symbol
//! characters, the padding character, and validity checks.

use crate::B64Error;
use vstd::prelude::*;

verus! {

/// Trait for a base64 alphabet that can be used to encode & decode a
/// [`Base64String`](crate::Base64String).
///
/// An alphabet is a bijection between the integers `0..64` and 64
/// distinct printable characters, together with an optional padding
/// character that is disjoint from the mapped characters.
pub trait Alphabet: Sized {
    /// The symbol for the 6-bit value `i`, for `0 <= i < 64`.
    spec fn spec_char_at(i: int) -> char;

    /// The padding character, if this alphabet is padded.
    spec fn spec_padding() -> Option<char>;

    /// The alphabet's invariant: the encode mapping is injective, and
    /// neither the padding character nor the null sentinel is a mapped
    /// symbol.
    proof fn lemma_wf()
        ensures
            forall|i: int, j: int|
                0 <= i < 64 && 0 <= j < 64 && i != j ==> Self::spec_char_at(i)
                    != Self::spec_char_at(j),
            forall|i: int|
                0 <= i < 64 ==> Self::spec_padding() != Some(#[trigger] Self::spec_char_at(i)),
            forall|i: int| 0 <= i < 64 ==> #[trigger] Self::spec_char_at(i) != '\0',
    ;

    /// The padding character used for the alphabet.
    fn padding(&self) -> (r: Option<char>)
        ensures
            r == Self::spec_padding(),
    ;

    /// Returns the base64 character corresponding to a set of 6 bits.
    ///
    /// The engine never calls this with an out-of-range value, but the
    /// method still handles one gracefully, with `BitsOOB`.
    fn encode_bits(&self, bits: u8) -> (r: Result<char, B64Error>)
        ensures
            bits > 63 ==> r == Err::<char, B64Error>(B64Error::BitsOOB(bits)),
            bits <= 63 ==> r == Ok::<char, B64Error>(Self::spec_char_at(bits as int)),
    ;

    /// Decodes a base64 character into its 6-bit value. The padding
    /// character decodes to 0; the null character decodes to the
    /// out-of-range sentinel `0x64`, used internally for absent trailing
    /// positions; any other character outside the symbol set is an
    /// `InvalidChar` error.
    fn decode_char(&self, c: char) -> (r: Result<u8, B64Error>)
        ensures
            Self::spec_padding() == Some(c) ==> r == Ok::<u8, B64Error>(0u8),
            Self::spec_padding() != Some(c) && c == '\0' ==> r == Ok::<u8, B64Error>(0x64u8),
            Self::spec_padding() != Some(c) && c != '\0' && (forall|i: int|
                0 <= i < 64 ==> #[trigger] Self::spec_char_at(i) != c) ==> r == Err::<
                u8,
                B64Error,
            >(B64Error::InvalidChar(c)),
            forall|i: int|
                0 <= i < 64 && #[trigger] Self::spec_char_at(i) == c && Self::spec_padding()
                    != Some(c) && c != '\0' ==> r == Ok::<u8, B64Error>(i as u8),
    ;

    /// True iff `c` is one of the 64 mapped symbols (padding not counted).
    fn is_valid(&self, c: char) -> (r: bool)
        ensures
            r == exists|i: int| 0 <= i < 64 && #[trigger] Self::spec_char_at(i) == c,
    ;
}

/// True iff `c` is one of the 64 mapped symbols of `A`.
pub open spec fn spec_is_valid<A: Alphabet>(c: char) -> bool {
    exists|i: int| 0 <= i < 64 && A::spec_char_at(i) == c
}

/// The 6-bit value that `A` maps to the symbol `c`; meaningful only when
/// `spec_is_valid::<A>(c)` holds.
pub open spec fn spec_index_of<A: Alphabet>(c: char) -> int {
    choose|i: int| 0 <= i < 64 && A::spec_char_at(i) == c
}

/// What `decode_char` returns.
pub open spec fn spec_decode_char<A: Alphabet>(c: char) -> Result<u8, B64Error> {
    if A::spec_padding() == Some(c) {
        Ok(0u8)
    } else if c == '\0' {
        Ok(0x64u8)
    } else if spec_is_valid::<A>(c) {
        Ok(spec_index_of::<A>(c) as u8)
    } else {
        Err(B64Error::InvalidChar(c))
    }
}

/// A result that satisfies the case analysis that `decode_char` promises
/// is the value of `spec_decode_char`.
pub proof fn lemma_decode_char_agrees<A: Alphabet>(c: char, r: Result<u8, B64Error>)
    requires
        A::spec_padding() == Some(c) ==> r == Ok::<u8, B64Error>(0u8),
        A::spec_padding() != Some(c) && c == '\0' ==> r == Ok::<u8, B64Error>(0x64u8),
        A::spec_padding() != Some(c) && c != '\0' && (forall|i: int|
            0 <= i < 64 ==> #[trigger] A::spec_char_at(i) != c) ==> r == Err::<u8, B64Error>(
            B64Error::InvalidChar(c),
        ),
        forall|i: int|
            0 <= i < 64 && #[trigger] A::spec_char_at(i) == c && A::spec_padding() != Some(c) && c
                != '\0' ==> r == Ok::<u8, B64Error>(i as u8),
    ensures
        r == spec_decode_char::<A>(c),
{
    if A::spec_padding() == Some(c) {
    } else if c == '\0' {
    } else if spec_is_valid::<A>(c) {
        let j = spec_index_of::<A>(c);
        assert(0 <= j < 64 && A::spec_char_at(j) == c);
        assert(r == Ok::<u8, B64Error>(j as u8));
    } else {
        assert(forall|i: int| 0 <= i < 64 ==> #[trigger] A::spec_char_at(i) != c);
    }
}

/// Decoding a mapped symbol gives back the value it encodes.
pub proof fn lemma_decode_of_mapped<A: Alphabet>(v: u8)
    requires
        v < 64,
    ensures
        spec_is_valid::<A>(A::spec_char_at(v as int)),
        spec_index_of::<A>(A::spec_char_at(v as int)) == v as int,
        spec_decode_char::<A>(A::spec_char_at(v as int)) == Ok::<u8, B64Error>(v),
{
    A::lemma_wf();
    let c = A::spec_char_at(v as int);
    assert(0 <= (v as int) && (v as int) < 64 && A::spec_char_at(v as int) == c);
    assert(spec_is_valid::<A>(c));
    let j = spec_index_of::<A>(c);
    assert(0 <= j < 64 && A::spec_char_at(j) == c);
    assert(j == v as int);
}

/// Two characters with the same code point are the same character.
proof fn lemma_char_eq_by_code(a: char, b: char)
    requires
        a as u32 == b as u32,
    ensures
        a == b,
{
    vstd::utf8::char_u32_cast(a, a as u32);
    vstd::utf8::char_u32_cast(b, b as u32);
}

/// The standard base64 alphabet as defined in RFC 4648.
#[derive(Debug, Clone, Copy)]
pub struct Standard {}

/// The URL safe base64 alphabet as defined in RFC 4648.
#[derive(Debug, Clone, Copy)]
pub struct UrlSafe {}

/// The code point of the `i`-th symbol of the standard alphabet:
/// `A`-`Z`, `a`-`z`, `0`-`9`, `+`, `/`.
pub open spec fn standard_code_at(i: int) -> int {
    if i < 26 {
        65 + i  // 'A'..='Z'
    } else if i < 52 {
        71 + i  // 'a'..='z'
    } else if i < 62 {
        i - 4  // '0'..='9'
    } else if i == 62 {
        43  // '+'
    } else {
        47  // '/'
    }
}

/// The `i`-th symbol of the standard alphabet.
pub open spec fn standard_char_at(i: int) -> char {
    (standard_code_at(i) as u8) as char
}

/// The code point of the `i`-th symbol of the URL safe alphabet:
/// `A`-`Z`, `a`-`z`, `0`-`9`, `-`, `_`.
pub open spec fn url_safe_code_at(i: int) -> int {
    if i < 26 {
        65 + i  // 'A'..='Z'
    } else if i < 52 {
        71 + i  // 'a'..='z'
    } else if i < 62 {
        i - 4  // '0'..='9'
    } else if i == 62 {
        45  // '-'
    } else {
        95  // '_'
    }
}

/// The `i`-th symbol of the URL safe alphabet.
pub open spec fn url_safe_char_at(i: int) -> char {
    (url_safe_code_at(i) as u8) as char
}

impl Standard {
    /// Get a new [`Standard`] alphabet.
    pub fn new() -> (r: Self)
        ensures
            r == (Standard {  }),
    {
        Standard {  }
    }
}

impl UrlSafe {
    /// Get a new [`UrlSafe`] alphabet.
    pub fn new() -> (r: Self)
        ensures
            r == (UrlSafe {  }),
    {
        UrlSafe {  }
    }
}

impl Alphabet for Standard {
    open spec fn spec_char_at(i: int) -> char {
        standard_char_at(i)
    }

    open spec fn spec_padding() -> Option<char> {
        Some('=')
    }

    proof fn lemma_wf() {
        assert forall|i: int| 0 <= i < 64 implies #[trigger] Self::spec_char_at(i) != '\0' by {
            assert(standard_char_at(i) as u32 == standard_code_at(i));
            assert('\0' as u32 == 0);
        }
        assert forall|i: int| 0 <= i < 64 implies Self::spec_padding() != Some(
            #[trigger] Self::spec_char_at(i),
        ) by {
            assert(standard_char_at(i) as u32 == standard_code_at(i));
            assert('=' as u32 == 61);
        }
        assert forall|i: int, j: int|
            0 <= i < 64 && 0 <= j < 64 && i != j implies Self::spec_char_at(i)
            != Self::spec_char_at(j) by {
            assert(standard_char_at(i) as u32 == standard_code_at(i));
            assert(standard_char_at(j) as u32 == standard_code_at(j));
        }
    }

    fn padding(&self) -> (r: Option<char>) {
        Some('=')
    }

    fn encode_bits(&self, bits: u8) -> (r: Result<char, B64Error>) {
        if bits > 63 {
            Err(B64Error::BitsOOB(bits))
        } else if bits < 26 {
            let c = (bits + 65) as char;
            proof {
                lemma_char_eq_by_code(c, Self::spec_char_at(bits as int));
            }
            Ok(c)
        } else if bits < 52 {
            let c = (bits + 71) as char;
            proof {
                lemma_char_eq_by_code(c, Self::spec_char_at(bits as int));
            }
            Ok(c)
        } else if bits < 62 {
            let c = (bits - 4) as char;
            proof {
                lemma_char_eq_by_code(c, Self::spec_char_at(bits as int));
            }
            Ok(c)
        } else if bits == 62 {
            proof {
                lemma_char_eq_by_code('+', Self::spec_char_at(62));
            }
            Ok('+')
        } else {
            proof {
                lemma_char_eq_by_code('/', Self::spec_char_at(63));
            }
            Ok('/')
        }
    }

    fn decode_char(&self, c: char) -> (r: Result<u8, B64Error>) {
        proof {
            Standard::lemma_wf();
        }
        let u = c as u32;
        if c == '=' {
            Ok(0)
        } else if c == '\0' {
            Ok(0x64)
        } else if 65 <= u && u <= 90 {
            let v = (u - 65) as u8;
            proof {
                assert(Self::spec_char_at(v as int) as u32 == u);
                lemma_char_eq_by_code(Self::spec_char_at(v as int), c);
                assert forall|i: int|
                    0 <= i < 64 && #[trigger] Self::spec_char_at(i) == c implies i == v as int by {}
            }
            Ok(v)
        } else if 97 <= u && u <= 122 {
            let v = (u - 71) as u8;
            proof {
                assert(Self::spec_char_at(v as int) as u32 == u);
                lemma_char_eq_by_code(Self::spec_char_at(v as int), c);
                assert forall|i: int|
                    0 <= i < 64 && #[trigger] Self::spec_char_at(i) == c implies i == v as int by {}
            }
            Ok(v)
        } else if 48 <= u && u <= 57 {
            let v = (u + 4) as u8;
            proof {
                assert(Self::spec_char_at(v as int) as u32 == u);
                lemma_char_eq_by_code(Self::spec_char_at(v as int), c);
                assert forall|i: int|
                    0 <= i < 64 && #[trigger] Self::spec_char_at(i) == c implies i == v as int by {}
            }
            Ok(v)
        } else if u == 43 {
            proof {
                assert(Self::spec_char_at(62) as u32 == u);
                lemma_char_eq_by_code(Self::spec_char_at(62), c);
                assert forall|i: int|
                    0 <= i < 64 && #[trigger] Self::spec_char_at(i) == c implies i == 62 by {}
            }
            Ok(62)
        } else if u == 47 {
            proof {
                assert(Self::spec_char_at(63) as u32 == u);
                lemma_char_eq_by_code(Self::spec_char_at(63), c);
                assert forall|i: int|
                    0 <= i < 64 && #[trigger] Self::spec_char_at(i) == c implies i == 63 by {}
            }
            Ok(63)
        } else {
            proof {
                assert forall|i: int| 0 <= i < 64 implies #[trigger] Self::spec_char_at(i) != c by {
                    assert(standard_char_at(i) as u32 == standard_code_at(i));
                }
            }
            Err(B64Error::InvalidChar(c))
        }
    }

    fn is_valid(&self, c: char) -> (r: bool) {
        let u = c as u32;
        let r = (65 <= u && u <= 90) || (97 <= u && u <= 122) || (48 <= u && u <= 57) || u == 43
            || u == 47;
        proof {
            if r {
                let v: u8 = if 65 <= u && u <= 90 {
                    (u - 65) as u8
                } else if 97 <= u && u <= 122 {
                    (u - 71) as u8
                } else if 48 <= u && u <= 57 {
                    (u + 4) as u8
                } else if u == 43 {
                    62u8
                } else {
                    63u8
                };
                assert(Self::spec_char_at(v as int) as u32 == u);
                lemma_char_eq_by_code(Self::spec_char_at(v as int), c);
                assert(exists|i: int| 0 <= i < 64 && #[trigger] Self::spec_char_at(i) == c);
            } else {
                assert forall|i: int| 0 <= i < 64 implies #[trigger] Self::spec_char_at(i) != c by {
                    assert(standard_char_at(i) as u32 == standard_code_at(i));
                }
                assert(!(exists|i: int| 0 <= i < 64 && #[trigger] Self::spec_char_at(i) == c));
            }
        }
        r
    }
}

impl Default for Standard {
    /// Get a new [`Standard`] alphabet, using its [`Default`] impl.
    fn default() -> (r: Self)
        ensures
            r == (Standard {  }),
    {
        Standard {  }
    }
}

impl Alphabet for UrlSafe {
    open spec fn spec_char_at(i: int) -> char {
        url_safe_char_at(i)
    }

    open spec fn spec_padding() -> Option<char> {
        Some('=')
    }

    proof fn lemma_wf() {
        assert forall|i: int| 0 <= i < 64 implies #[trigger] Self::spec_char_at(i) != '\0' by {
            assert(url_safe_char_at(i) as u32 == url_safe_code_at(i));
            assert('\0' as u32 == 0);
        }
        assert forall|i: int| 0 <= i < 64 implies Self::spec_padding() != Some(
            #[trigger] Self::spec_char_at(i),
        ) by {
            assert(url_safe_char_at(i) as u32 == url_safe_code_at(i));
            assert('=' as u32 == 61);
        }
        assert forall|i: int, j: int|
            0 <= i < 64 && 0 <= j < 64 && i != j implies Self::spec_char_at(i)
            != Self::spec_char_at(j) by {
            assert(url_safe_char_at(i) as u32 == url_safe_code_at(i));
            assert(url_safe_char_at(j) as u32 == url_safe_code_at(j));
        }
    }

    fn padding(&self) -> (r: Option<char>) {
        Some('=')
    }

    fn encode_bits(&self, bits: u8) -> (r: Result<char, B64Error>) {
        if bits > 63 {
            Err(B64Error::BitsOOB(bits))
        } else if bits < 26 {
            let c = (bits + 65) as char;
            proof {
                lemma_char_eq_by_code(c, Self::spec_char_at(bits as int));
            }
            Ok(c)
        } else if bits < 52 {
            let c = (bits + 71) as char;
            proof {
                lemma_char_eq_by_code(c, Self::spec_char_at(bits as int));
            }
            Ok(c)
        } else if bits < 62 {
            let c = (bits - 4) as char;
            proof {
                lemma_char_eq_by_code(c, Self::spec_char_at(bits as int));
            }
            Ok(c)
        } else if bits == 62 {
            proof {
                lemma_char_eq_by_code('-', Self::spec_char_at(62));
            }
            Ok('-')
        } else {
            proof {
                lemma_char_eq_by_code('_', Self::spec_char_at(63));
            }
            Ok('_')
        }
    }

    fn decode_char(&self, c: char) -> (r: Result<u8, B64Error>) {
        proof {
            UrlSafe::lemma_wf();
        }
        let u = c as u32;
        if c == '=' {
            Ok(0)
        } else if c == '\0' {
            Ok(0x64)
        } else if 65 <= u && u <= 90 {
            let v = (u - 65) as u8;
            proof {
                assert(Self::spec_char_at(v as int) as u32 == u);
                lemma_char_eq_by_code(Self::spec_char_at(v as int), c);
                assert forall|i: int|
                    0 <= i < 64 && #[trigger] Self::spec_char_at(i) == c implies i == v as int by {}
            }
            Ok(v)
        } else if 97 <= u && u <= 122 {
            let v = (u - 71) as u8;
            proof {
                assert(Self::spec_char_at(v as int) as u32 == u);
                lemma_char_eq_by_code(Self::spec_char_at(v as int), c);
                assert forall|i: int|
                    0 <= i < 64 && #[trigger] Self::spec_char_at(i) == c implies i == v as int by {}
            }
            Ok(v)
        } else if 48 <= u && u <= 57 {
            let v = (u + 4) as u8;
            proof {
                assert(Self::spec_char_at(v as int) as u32 == u);
                lemma_char_eq_by_code(Self::spec_char_at(v as int), c);
                assert forall|i: int|
                    0 <= i < 64 && #[trigger] Self::spec_char_at(i) == c implies i == v as int by {}
            }
            Ok(v)
        } else if u == 45 {
            proof {
                assert(Self::spec_char_at(62) as u32 == u);
                lemma_char_eq_by_code(Self::spec_char_at(62), c);
                assert forall|i: int|
                    0 <= i < 64 && #[trigger] Self::spec_char_at(i) == c implies i == 62 by {}
            }
            Ok(62)
        } else if u == 95 {
            proof {
                assert(Self::spec_char_at(63) as u32 == u);
                lemma_char_eq_by_code(Self::spec_char_at(63), c);
                assert forall|i: int|
                    0 <= i < 64 && #[trigger] Self::spec_char_at(i) == c implies i == 63 by {}
            }
            Ok(63)
        } else {
            proof {
                assert forall|i: int| 0 <= i < 64 implies #[trigger] Self::spec_char_at(i) != c by {
                    assert(url_safe_char_at(i) as u32 == url_safe_code_at(i));
                }
            }
            Err(B64Error::InvalidChar(c))
        }
    }

    fn is_valid(&self, c: char) -> (r: bool) {
        let u = c as u32;
        let r = (65 <= u && u <= 90) || (97 <= u && u <= 122) || (48 <= u && u <= 57) || u == 45
            || u == 95;
        proof {
            if r {
                let v: u8 = if 65 <= u && u <= 90 {
                    (u - 65) as u8
                } else if 97 <= u && u <= 122 {
                    (u - 71) as u8
                } else if 48 <= u && u <= 57 {
                    (u + 4) as u8
                } else if u == 45 {
                    62u8
                } else {
                    63u8
                };
                assert(Self::spec_char_at(v as int) as u32 == u);
                lemma_char_eq_by_code(Self::spec_char_at(v as int), c);
                assert(exists|i: int| 0 <= i < 64 && #[trigger] Self::spec_char_at(i) == c);
            } else {
                assert forall|i: int| 0 <= i < 64 implies #[trigger] Self::spec_char_at(i) != c by {
                    assert(url_safe_char_at(i) as u32 == url_safe_code_at(i));
                }
                assert(!(exists|i: int| 0 <= i < 64 && #[trigger] Self::spec_char_at(i) == c));
            }
        }
        r
    }
}

impl Default for UrlSafe {
    /// Get a new [`UrlSafe`] alphabet, using its [`Default`] impl.
    fn default() -> (r: Self)
        ensures
            r == (UrlSafe {  }),
    {
        UrlSafe {  }
    }
}

} // verus!
