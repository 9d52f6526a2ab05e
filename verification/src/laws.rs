//! The engine's laws: encoding round-trips through decoding, encoded
//! length and padding counts are fixed by the input length, and
//! re-encoding under another alphabet round-trips as well.

use crate::alphabet::{lemma_decode_of_mapped, spec_decode_char, Alphabet};
use crate::base64string::{
    byte0, byte1, byte2, field0, field1, field2, field3, lemma_fields_in_range,
    lemma_unpack_doublet, lemma_unpack_singlet, lemma_unpack_triplet, pack3, pack4,
    spec_change_alphabet, spec_decode, spec_decode_group, spec_decode_quad, spec_encode,
    spec_encode_triplet, spec_group_arity, spec_normalize, spec_pad_char,
};
use crate::B64Error;
use vstd::prelude::*;

verus! {

/// What the null sentinel decodes to: 0 where it is itself the padding
/// character, the out-of-range marker otherwise. Either way a value,
/// never an error, and one that cannot disturb the bytes that a short
/// group carries.
proof fn lemma_null_decodes<A: Alphabet>() -> (x: u8)
    ensures
        spec_decode_char::<A>('\0') == Ok::<u8, B64Error>(x),
{
    if A::spec_padding() == Some('\0') {
        0
    } else {
        0x64
    }
}

/// Decoding what a full 3-byte group encodes gives the group back.
proof fn lemma_triplet_round_trip<A: Alphabet>(a: u8, b: u8, c: u8)
    ensures
        spec_decode_group::<A>(spec_encode_triplet::<A>(a, b, c)) == Ok::<Seq<u8>, B64Error>(
            seq![a, b, c],
        ),
{
    A::lemma_wf();
    let v = pack3(a, b, c);
    lemma_fields_in_range(v);
    lemma_decode_of_mapped::<A>(field0(v));
    lemma_decode_of_mapped::<A>(field1(v));
    lemma_decode_of_mapped::<A>(field2(v));
    lemma_decode_of_mapped::<A>(field3(v));
    let g = spec_encode_triplet::<A>(a, b, c);
    assert(g[2] != spec_pad_char::<A>() && g[3] != spec_pad_char::<A>());
    assert(spec_group_arity::<A>(g) == 3);
    lemma_unpack_triplet(a, b, c);
    let w = pack4(field0(v), field1(v), field2(v), field3(v));
    assert(spec_decode_quad::<A>(g[0], g[1], g[2], g[3]) == Ok::<(u8, u8, u8), B64Error>(
        (byte0(w), byte1(w), byte2(w)),
    ));
    assert(spec_decode_group::<A>(g) == Ok::<Seq<u8>, B64Error>(seq![a, b, c]));
}

/// Decoding what a trailing single byte encodes gives that byte back.
proof fn lemma_singlet_round_trip<A: Alphabet>(bytes: Seq<u8>)
    requires
        bytes.len() == 1,
    ensures
        spec_decode::<A>(spec_encode::<A>(bytes)) == Ok::<Seq<u8>, B64Error>(bytes),
{
    A::lemma_wf();
    let enc = spec_encode::<A>(bytes);
    let a = bytes[0];
    let v = pack3(a, 0, 0);
    lemma_fields_in_range(v);
    lemma_decode_of_mapped::<A>(field0(v));
    lemma_decode_of_mapped::<A>(field1(v));
    let x = lemma_null_decodes::<A>();
    assert(enc.len() == 4);
    let g = enc.take(4);
    assert(g =~= enc);
    assert(spec_group_arity::<A>(g) == 1);
    lemma_unpack_singlet(a, x, x);
    let w = pack4(field0(v), field1(v), x, x);
    assert(spec_decode_quad::<A>(g[0], g[1], '\0', '\0') == Ok::<(u8, u8, u8), B64Error>(
        (byte0(w), byte1(w), byte2(w)),
    ));
    assert(spec_decode_group::<A>(g) == Ok::<Seq<u8>, B64Error>(seq![a]));
    assert(enc.skip(4) =~= Seq::<char>::empty());
    assert(enc.skip(4).len() == 0);
    assert(spec_decode::<A>(enc.skip(4)) == Ok::<Seq<u8>, B64Error>(Seq::<u8>::empty()));
    assert(spec_decode::<A>(enc) == Ok::<Seq<u8>, B64Error>(seq![a] + Seq::<u8>::empty()));
    assert(seq![a] + Seq::<u8>::empty() =~= bytes);
}

/// Decoding what a trailing 2-byte group encodes gives the bytes back.
proof fn lemma_doublet_round_trip<A: Alphabet>(bytes: Seq<u8>)
    requires
        bytes.len() == 2,
    ensures
        spec_decode::<A>(spec_encode::<A>(bytes)) == Ok::<Seq<u8>, B64Error>(bytes),
{
    A::lemma_wf();
    let enc = spec_encode::<A>(bytes);
    let a = bytes[0];
    let b = bytes[1];
    let v = pack3(a, b, 0);
    lemma_fields_in_range(v);
    lemma_decode_of_mapped::<A>(field0(v));
    lemma_decode_of_mapped::<A>(field1(v));
    lemma_decode_of_mapped::<A>(field2(v));
    let x = lemma_null_decodes::<A>();
    assert(enc.len() == 4);
    let g = enc.take(4);
    assert(g =~= enc);
    assert(g[2] != spec_pad_char::<A>());
    assert(spec_group_arity::<A>(g) == 2);
    lemma_unpack_doublet(a, b, x);
    let w = pack4(field0(v), field1(v), field2(v), x);
    assert(spec_decode_quad::<A>(g[0], g[1], g[2], '\0') == Ok::<(u8, u8, u8), B64Error>(
        (byte0(w), byte1(w), byte2(w)),
    ));
    assert(spec_decode_group::<A>(g) == Ok::<Seq<u8>, B64Error>(seq![a, b]));
    assert(enc.skip(4) =~= Seq::<char>::empty());
    assert(enc.skip(4).len() == 0);
    assert(spec_decode::<A>(enc.skip(4)) == Ok::<Seq<u8>, B64Error>(Seq::<u8>::empty()));
    assert(spec_decode::<A>(enc) == Ok::<Seq<u8>, B64Error>(seq![a, b] + Seq::<u8>::empty()));
    assert(seq![a, b] + Seq::<u8>::empty() =~= bytes);
}

/// Round trip: decoding what was encoded gives the bytes back, for every
/// byte sequence and every alphabet.
pub proof fn lemma_round_trip<A: Alphabet>(bytes: Seq<u8>)
    ensures
        spec_decode::<A>(spec_encode::<A>(bytes)) == Ok::<Seq<u8>, B64Error>(bytes),
    decreases bytes.len(),
{
    A::lemma_wf();
    let enc = spec_encode::<A>(bytes);
    if bytes.len() == 0 {
        assert(bytes =~= Seq::<u8>::empty());
    } else if bytes.len() == 1 {
        lemma_singlet_round_trip::<A>(bytes);
    } else if bytes.len() == 2 {
        lemma_doublet_round_trip::<A>(bytes);
    } else {
        let a = bytes[0];
        let b = bytes[1];
        let c = bytes[2];
        let t = spec_encode_triplet::<A>(a, b, c);
        let rest = spec_encode::<A>(bytes.skip(3));
        assert(enc == t + rest);
        assert(enc.len() >= 4);
        assert(enc.take(4) =~= t);
        assert(enc.skip(4) =~= rest);
        lemma_triplet_round_trip::<A>(a, b, c);
        lemma_round_trip::<A>(bytes.skip(3));
        assert(seq![a, b, c] + bytes.skip(3) =~= bytes);
    }
}

/// Length law: an `n`-byte input encodes to exactly `4 * ceil(n / 3)`
/// characters, padding included.
pub proof fn lemma_encode_length<A: Alphabet>(bytes: Seq<u8>)
    ensures
        spec_encode::<A>(bytes).len() == 4 * ((bytes.len() + 2) / 3),
    decreases bytes.len(),
{
    if bytes.len() >= 3 {
        lemma_encode_length::<A>(bytes.skip(3));
    }
}

/// The number of characters of a 4-element sequence that satisfy a
/// predicate.
proof fn lemma_filter_quad(g: Seq<char>, p: spec_fn(char) -> bool)
    requires
        g.len() == 4,
    ensures
        g.filter(p).len() == (if p(g[0]) {
            1int
        } else {
            0int
        }) + (if p(g[1]) {
            1int
        } else {
            0int
        }) + (if p(g[2]) {
            1int
        } else {
            0int
        }) + (if p(g[3]) {
            1int
        } else {
            0int
        }),
{
    reveal_with_fuel(Seq::filter, 5);
    let g3 = g.drop_last();
    let g2 = g3.drop_last();
    let g1 = g2.drop_last();
    let g0 = g1.drop_last();
    assert(g0 =~= Seq::<char>::empty());
    assert(g.last() == g[3] && g3.last() == g[2] && g2.last() == g[1] && g1.last() == g[0]);
    assert(g0.filter(p).len() == 0);
}

/// Padding law: the number of padding characters in the encoded text is
/// 0, 2 or 1 according as the input length is 0, 1 or 2 modulo 3.
pub proof fn lemma_encode_padding_count<A: Alphabet>(bytes: Seq<u8>)
    ensures
        ({
            let n = bytes.len() as int;
            let cnt = spec_encode::<A>(bytes).filter(
                |c: char| c == spec_pad_char::<A>(),
            ).len() as int;
            cnt == if n % 3 == 0 {
                0int
            } else {
                3 - n % 3
            }
        }),
    decreases bytes.len(),
{
    A::lemma_wf();
    let p = |c: char| c == spec_pad_char::<A>();
    let enc = spec_encode::<A>(bytes);
    if bytes.len() == 0 {
        reveal_with_fuel(Seq::filter, 1);
        assert(enc.filter(p).len() == 0);
    } else if bytes.len() == 1 {
        let v = pack3(bytes[0], 0, 0);
        lemma_fields_in_range(v);
        lemma_filter_quad(enc, p);
        assert(!p(enc[0]) && !p(enc[1]) && p(enc[2]) && p(enc[3]));
    } else if bytes.len() == 2 {
        let v = pack3(bytes[0], bytes[1], 0);
        lemma_fields_in_range(v);
        lemma_filter_quad(enc, p);
        assert(!p(enc[0]) && !p(enc[1]) && !p(enc[2]) && p(enc[3]));
    } else {
        let t = spec_encode_triplet::<A>(bytes[0], bytes[1], bytes[2]);
        let rest = spec_encode::<A>(bytes.skip(3));
        let v = pack3(bytes[0], bytes[1], bytes[2]);
        lemma_fields_in_range(v);
        Seq::<char>::filter_distributes_over_add(t, rest, p);
        lemma_filter_quad(t, p);
        assert(!p(t[0]) && !p(t[1]) && !p(t[2]) && !p(t[3]));
        lemma_encode_padding_count::<A>(bytes.skip(3));
    }
}

/// Alphabet round trip: text encoded under `A`, re-encoded under `B` and
/// then under `A` again, comes back unchanged.
pub proof fn lemma_change_alphabet_round_trip<A: Alphabet, B: Alphabet>(bytes: Seq<u8>)
    ensures
        ({
            let x = spec_encode::<A>(bytes);
            let y = spec_encode::<B>(bytes);
            spec_change_alphabet::<A, B>(x) == Ok::<Seq<char>, B64Error>(y)
                && spec_change_alphabet::<B, A>(y) == Ok::<Seq<char>, B64Error>(x)
        }),
{
    lemma_round_trip::<A>(bytes);
    lemma_round_trip::<B>(bytes);
}

/// Normalizing text whose length is already a multiple of 4 leaves it
/// unchanged, so wrapping such text does not alter its length.
pub proof fn lemma_normalize_aligned<A: Alphabet>(text: Seq<char>)
    requires
        text.len() % 4 == 0,
    ensures
        spec_normalize::<A>(text) == text,
{
    match A::spec_padding() {
        None => {
        },
        Some(p) => {
            assert(text + Seq::new(0, |i: int| p) =~= text);
        },
    }
}

} // verus!
