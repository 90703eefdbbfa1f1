//! The bcrypt variant of Base64: alphabet `./A-Za-z0-9`, no padding.

use vstd::prelude::*;

verus! {

/// The symbol that stands for the six-bit value `v`.
pub open spec fn sym_char(v: u8) -> u8 {
    if v == 0 {
        46u8
    } else if v == 1 {
        47u8
    } else if v < 28 {
        (v + 63) as u8
    } else if v < 54 {
        (v + 69) as u8
    } else {
        (v - 6) as u8
    }
}

/// Whether `c` belongs to the alphabet.
pub open spec fn is_sym(c: u8) -> bool {
    c == 46 || c == 47 || (65 <= c <= 90) || (97 <= c <= 122) || (48 <= c <= 57)
}

/// The six-bit value of a symbol of the alphabet.
pub open spec fn sym_val(c: u8) -> u8 {
    if c == 46 {
        0u8
    } else if c == 47 {
        1u8
    } else if 65 <= c <= 90 {
        (c - 63) as u8
    } else if 97 <= c <= 122 {
        (c - 69) as u8
    } else {
        (c + 6) as u8
    }
}

/// Encoding of `b`: each group of three bytes becomes four symbols, a final
/// group of one or two bytes becomes two or three symbols.
pub open spec fn b64_encode(b: Seq<u8>) -> Seq<u8>
    decreases b.len(),
{
    if b.len() == 0 {
        seq![]
    } else if b.len() == 1 {
        seq![sym_char(b[0] >> 2u8), sym_char((b[0] & 3u8) << 4u8)]
    } else if b.len() == 2 {
        seq![
            sym_char(b[0] >> 2u8),
            sym_char(((b[0] & 3u8) << 4u8) | (b[1] >> 4u8)),
            sym_char((b[1] & 15u8) << 2u8),
        ]
    } else {
        seq![
            sym_char(b[0] >> 2u8),
            sym_char(((b[0] & 3u8) << 4u8) | (b[1] >> 4u8)),
            sym_char(((b[1] & 15u8) << 2u8) | (b[2] >> 6u8)),
            sym_char(b[2] & 63u8),
        ] + b64_encode(b.skip(3))
    }
}

/// Decoding of a sequence of symbols: each group of four symbols gives three
/// bytes, a final group of two or three symbols gives one or two bytes.
pub open spec fn b64_decode(s: Seq<u8>) -> Seq<u8>
    decreases s.len(),
{
    if s.len() < 2 {
        seq![]
    } else if s.len() == 2 {
        seq![(sym_val(s[0]) << 2u8) | (sym_val(s[1]) >> 4u8)]
    } else if s.len() == 3 {
        seq![
            (sym_val(s[0]) << 2u8) | (sym_val(s[1]) >> 4u8),
            ((sym_val(s[1]) & 15u8) << 4u8) | (sym_val(s[2]) >> 2u8),
        ]
    } else {
        seq![
            (sym_val(s[0]) << 2u8) | (sym_val(s[1]) >> 4u8),
            ((sym_val(s[1]) & 15u8) << 4u8) | (sym_val(s[2]) >> 2u8),
            ((sym_val(s[2]) & 3u8) << 6u8) | sym_val(s[3]),
        ] + b64_decode(s.skip(4))
    }
}

/// Number of symbols in an encoded salt.
pub const SALT_TEXT_LEN: usize = 22;

/// Whether `s` is the text of a salt that decodes: 22 symbols of the
/// alphabet, the last of which carries no bits beyond the sixteenth byte.
pub open spec fn salt_text_ok(s: Seq<u8>) -> bool {
    &&& s.len() == 22
    &&& forall|i: int| 0 <= i < 22 ==> #[trigger] is_sym(s[i])
    &&& sym_val(s[21]) & 15u8 == 0
}

/// Relies on base64's `Engine::encode` with the bcrypt alphabet and no
/// padding: the standard Base64 grouping over that alphabet.
#[verifier::external_body]
pub(crate) fn encode(b: &[u8]) -> (r: Vec<u8>)
    ensures
        r@ == b64_encode(b@),
{
    let engine = base64::engine::GeneralPurpose::new(
        &base64::alphabet::BCRYPT,
        base64::engine::general_purpose::NO_PAD,
    );
    base64::Engine::encode(&engine, b).into_bytes()
}

/// Relies on base64's `Engine::decode` with the bcrypt alphabet, no padding
/// and trailing bits refused: on 22 symbols it succeeds exactly when every
/// symbol is in the alphabet and the last one has its four low bits clear.
#[verifier::external_body]
pub(crate) fn decode_salt_text(s: &[u8]) -> (r: Option<Vec<u8>>)
    requires
        s@.len() == 22,
    ensures
        r is Some <==> salt_text_ok(s@),
        r matches Some(v) ==> v@ == b64_decode(s@),
{
    let engine = base64::engine::GeneralPurpose::new(
        &base64::alphabet::BCRYPT,
        base64::engine::general_purpose::NO_PAD,
    );
    base64::Engine::decode(&engine, s).ok()
}


/// Symbols and six-bit values correspond one to one.
pub proof fn lemma_sym_round_trip(v: u8)
    requires
        v < 64,
    ensures
        is_sym(sym_char(v)),
        sym_val(sym_char(v)) == v,
{
}

proof fn lemma_group_bits(a: u8, b: u8, c: u8)
    ensures
        a >> 2u8 < 64,
        ((a & 3u8) << 4u8) | (b >> 4u8) < 64,
        ((b & 15u8) << 2u8) | (c >> 6u8) < 64,
        c & 63u8 < 64,
        (a & 3u8) << 4u8 < 64,
        (b & 15u8) << 2u8 < 64,
        ((a >> 2u8) << 2u8) | ((((a & 3u8) << 4u8) | (b >> 4u8)) >> 4u8) == a,
        (((((a & 3u8) << 4u8) | (b >> 4u8)) & 15u8) << 4u8) | ((((b & 15u8) << 2u8) | (c
            >> 6u8)) >> 2u8) == b,
        (((((b & 15u8) << 2u8) | (c >> 6u8)) & 3u8) << 6u8) | (c & 63u8) == c,
        ((a >> 2u8) << 2u8) | (((a & 3u8) << 4u8) >> 4u8) == a,
        (((((a & 3u8) << 4u8) | (b >> 4u8)) & 15u8) << 4u8) | (((b & 15u8) << 2u8) >> 2u8) == b,
        ((a & 3u8) << 4u8) & 15u8 == 0,
{
    assert(a >> 2u8 < 64) by (bit_vector);
    assert(((a & 3u8) << 4u8) | (b >> 4u8) < 64) by (bit_vector);
    assert(((b & 15u8) << 2u8) | (c >> 6u8) < 64) by (bit_vector);
    assert(c & 63u8 < 64) by (bit_vector);
    assert((a & 3u8) << 4u8 < 64) by (bit_vector);
    assert((b & 15u8) << 2u8 < 64) by (bit_vector);
    assert(((a >> 2u8) << 2u8) | ((((a & 3u8) << 4u8) | (b >> 4u8)) >> 4u8) == a) by (bit_vector);
    assert((((((a & 3u8) << 4u8) | (b >> 4u8)) & 15u8) << 4u8) | ((((b & 15u8) << 2u8) | (c
        >> 6u8)) >> 2u8) == b) by (bit_vector);
    assert((((((b & 15u8) << 2u8) | (c >> 6u8)) & 3u8) << 6u8) | (c & 63u8) == c)
        by (bit_vector);
    assert(((a >> 2u8) << 2u8) | (((a & 3u8) << 4u8) >> 4u8) == a) by (bit_vector);
    assert((((((a & 3u8) << 4u8) | (b >> 4u8)) & 15u8) << 4u8) | (((b & 15u8) << 2u8) >> 2u8)
        == b) by (bit_vector);
    assert(((a & 3u8) << 4u8) & 15u8 == 0) by (bit_vector);
}

/// Decoding undoes encoding, every encoded symbol is in the alphabet, and
/// the encoding of `n` bytes has `ceil(4n/3)` symbols.
pub proof fn lemma_decode_encode(b: Seq<u8>)
    ensures
        b64_decode(b64_encode(b)) == b,
        forall|i: int| 0 <= i < b64_encode(b).len() ==> #[trigger] is_sym(b64_encode(b)[i]),
        b64_encode(b).len() == (4 * b.len() + 2) / 3,
        b.len() % 3 == 1 ==> sym_val(b64_encode(b).last()) & 15u8 == 0,
    decreases b.len(),
{
    let e = b64_encode(b);
    if b.len() == 0 {
    } else if b.len() == 1 {
        lemma_group_bits(b[0], 0, 0);
        lemma_sym_round_trip(b[0] >> 2u8);
        lemma_sym_round_trip((b[0] & 3u8) << 4u8);
        assert(b64_decode(e) =~= b);
    } else if b.len() == 2 {
        lemma_group_bits(b[0], b[1], 0);
        lemma_sym_round_trip(b[0] >> 2u8);
        lemma_sym_round_trip(((b[0] & 3u8) << 4u8) | (b[1] >> 4u8));
        lemma_sym_round_trip((b[1] & 15u8) << 2u8);
        assert(b64_decode(e) =~= b);
    } else {
        lemma_group_bits(b[0], b[1], b[2]);
        lemma_sym_round_trip(b[0] >> 2u8);
        lemma_sym_round_trip(((b[0] & 3u8) << 4u8) | (b[1] >> 4u8));
        lemma_sym_round_trip(((b[1] & 15u8) << 2u8) | (b[2] >> 6u8));
        lemma_sym_round_trip(b[2] & 63u8);
        let rest = b.skip(3);
        lemma_decode_encode(rest);
        let head = seq![
            sym_char(b[0] >> 2u8),
            sym_char(((b[0] & 3u8) << 4u8) | (b[1] >> 4u8)),
            sym_char(((b[1] & 15u8) << 2u8) | (b[2] >> 6u8)),
            sym_char(b[2] & 63u8),
        ];
        assert(e == head + b64_encode(rest));
        assert(e.skip(4) =~= b64_encode(rest));
        assert(b64_decode(e) =~= b);
        assert forall|i: int| 0 <= i < e.len() implies #[trigger] is_sym(e[i]) by {
            if i >= 4 {
                assert(e[i] == b64_encode(rest)[i - 4]);
            }
        }
        if b.len() % 3 == 1 {
            assert(e.last() == b64_encode(rest).last());
        }
    }
}

/// Decoding `n` symbols gives `floor(3n/4)` bytes.
pub proof fn lemma_decode_len(s: Seq<u8>)
    ensures
        b64_decode(s).len() == (if s.len() % 4 == 1 {
            (s.len() - 1) * 3 / 4
        } else {
            s.len() as int * 3 / 4
        }),
    decreases s.len(),
{
    if s.len() >= 4 {
        lemma_decode_len(s.skip(4));
    }
}

/// The encoding of sixteen salt bytes is salt text that decodes back to them.
pub proof fn lemma_salt_text(b: Seq<u8>)
    requires
        b.len() == 16,
    ensures
        salt_text_ok(b64_encode(b)),
        b64_decode(b64_encode(b)) == b,
{
    lemma_decode_encode(b);
    let e = b64_encode(b);
    assert(e.last() == e[21]);
}

} // verus!
