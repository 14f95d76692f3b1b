//! Schema fingerprinting: one canonical encoding of a schema triple, reduced
//! by a 256-bit digest to a stable lowercase-hex string.

use vstd::prelude::*;
use vstd::utf8::encode_utf8;

use sha2::Digest;

use crate::canon::{
    enc_data, entries_sorted, key_bytes, lex_lt, strict_ok, to_canonical_cbor, valid_data,
    CanonData, CanonValue, EncodeError,
};

verus! {

/// The 32 bytes that the SHA-256 digest assigns to a byte sequence: a fixed
/// function of the input alone.
pub uninterp spec fn sha256_of(bytes: Seq<u8>) -> Seq<u8>;

/// Relies on sha2's Sha256: the digest is 32 bytes and depends on the input
/// bytes alone.
#[verifier::external_body]
fn sha256(bytes: &Vec<u8>) -> (r: Vec<u8>)
    ensures
        r@ == sha256_of(bytes@),
        r@.len() == 32,
{
    sha2::Sha256::digest(bytes.as_slice()).to_vec()
}

/// The lowercase hex character of a nibble.
pub open spec fn hex_char(n: u8) -> char
    recommends
        n < 16,
{
    if n < 10 {
        (n + 0x30) as char
    } else {
        (n + 0x57) as char
    }
}

/// The lowercase hex rendering of bytes, two characters per byte,
/// most-significant nibble first.
pub open spec fn hex_of(bytes: Seq<u8>) -> Seq<char> {
    Seq::new(
        2 * bytes.len(),
        |i: int|
            if i % 2 == 0 {
                hex_char(bytes[i / 2] / 16)
            } else {
                hex_char(bytes[i / 2] % 16)
            },
    )
}

/// Relies on String::from_utf8 over bytes this module proved to be the UTF-8
/// encoding of the wanted characters.
#[verifier::external_body]
fn string_from_ascii(bytes: Vec<u8>) -> (r: String)
    requires
        exists|s: Seq<char>| encode_utf8(s) == bytes@,
    ensures
        encode_utf8(r@) == bytes@,
{
    String::from_utf8(bytes).unwrap_or_default()
}

/// Renders bytes as lowercase hex.
#[verifier::loop_isolation(false)]
pub fn to_hex(bytes: &Vec<u8>) -> (r: String)
    ensures
        r@ == hex_of(bytes@),
        r@.len() == 2 * bytes@.len(),
{
    broadcast use vstd::std_specs::vec::group_vec_axioms, vstd::seq::group_seq_axioms;

    let ghost target = hex_of(bytes@);
    let mut out: Vec<u8> = Vec::new();
    let mut i: usize = 0;
    while i < bytes.len()
        invariant
            i <= bytes@.len(),
            out@.len() == 2 * i,
            forall|j: int| 0 <= j < out@.len() ==> #[trigger] out@[j] == (target[j] as u8),
            forall|j: int| 0 <= j < out@.len() ==> (#[trigger] out@[j]) < 128,
        decreases bytes@.len() - i,
    {
        let b = bytes[i];
        let hi = b / 16;
        let lo = b % 16;
        out.push(
            if hi < 10 {
                hi + 0x30
            } else {
                hi + 0x57
            },
        );
        out.push(
            if lo < 10 {
                lo + 0x30
            } else {
                lo + 0x57
            },
        );
        proof {
            assert(target[2 * i as int] == hex_char(bytes@[i as int] / 16));
            assert(target[2 * i as int + 1] == hex_char(bytes@[i as int] % 16));
        }
        i += 1;
    }
    proof {
        assert(vstd::utf8::is_ascii_chars(target));
        vstd::utf8::is_ascii_chars_encode_utf8(target);
        assert(encode_utf8(target) =~= out@);
    }
    let r = string_from_ascii(out);
    proof {
        vstd::utf8::encode_utf8_decode_utf8(r@);
        vstd::utf8::encode_utf8_decode_utf8(target);
    }
    r
}

/// The aggregate the fingerprint digests: a canonical map holding the three
/// schemas under the keys `input`, `output` and `config`, in key order.
pub open spec fn material_data(input: CanonData, output: CanonData, config: CanonData) -> CanonData {
    CanonData::Dict(seq![("config"@, config), ("input"@, input), ("output"@, output)])
}

pub proof fn lemma_material_sorted(input: CanonData, output: CanonData, config: CanonData)
    requires
        valid_data(input),
        valid_data(output),
        valid_data(config),
    ensures
        valid_data(material_data(input, output, config)),
{
    reveal(crate::canon::lex_lt);
    reveal_strlit("config");
    reveal_strlit("input");
    reveal_strlit("output");
    assert(vstd::utf8::is_ascii_chars("config"@));
    assert(vstd::utf8::is_ascii_chars("input"@));
    assert(vstd::utf8::is_ascii_chars("output"@));
    vstd::utf8::is_ascii_chars_encode_utf8("config"@);
    vstd::utf8::is_ascii_chars_encode_utf8("input"@);
    vstd::utf8::is_ascii_chars_encode_utf8("output"@);
    assert(key_bytes("config"@)[0] == 'c' as u8);
    assert(key_bytes("input"@)[0] == 'i' as u8);
    assert(key_bytes("output"@)[0] == 'o' as u8);
    assert(lex_lt(key_bytes("config"@), key_bytes("input"@)));
    assert(lex_lt(key_bytes("input"@), key_bytes("output"@)));
    let es = material_data(input, output, config)->Dict_0;
    assert forall|i: int| 0 <= i && i + 1 < es.len() implies lex_lt(
        key_bytes(#[trigger] es[i].0),
        key_bytes(es[i + 1].0),
    ) by {}
    assert forall|i: int| 0 <= i < es.len() implies valid_data(#[trigger] es[i].1) && encode_utf8(
        es[i].0,
    ).len() < 0x1_0000_0000_0000_0000 by {}
}

/// Computes the schema fingerprint of an `(input, output, config)` schema
/// triple: the triple's strict canonical encoding, digested by SHA-256 and
/// rendered as 64 lowercase hex characters. Equal triples always give equal
/// fingerprints; swapping two unequal fields changes the digested bytes.
pub fn schema_hash(input: CanonValue, output: CanonValue, config: CanonValue) -> (r: Result<
    String,
    EncodeError,
>)
    requires
        valid_data(input@),
        valid_data(output@),
        valid_data(config@),
    ensures
        r is Ok <==> strict_ok(material_data(input@, output@, config@)),
        r matches Ok(h) ==> h@ == hex_of(
            sha256_of(enc_data(material_data(input@, output@, config@))),
        ) && h@.len() == 64,
{
    broadcast use vstd::std_specs::vec::group_vec_axioms, vstd::seq::group_seq_axioms;

    let ghost m = material_data(input@, output@, config@);
    proof {
        lemma_material_sorted(input@, output@, config@);
    }
    let mut entries: Vec<(String, CanonValue)> = Vec::new();
    entries.push(("config".to_owned(), config));
    entries.push(("input".to_owned(), input));
    entries.push(("output".to_owned(), output));
    let material = CanonValue::Dict(entries);
    proof {
        assert(crate::canon::entry_views_of(material->Dict_0) =~= m->Dict_0);
        assert(material@ == m);
    }
    let bytes = to_canonical_cbor(&material)?;
    let digest = sha256(&bytes);
    Ok(to_hex(&digest))
}

} // verus!
