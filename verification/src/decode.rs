//! The canonical decoder: the exact inverse of the encoder.
//!
//! The decoder accepts a byte sequence only if it is the canonical encoding
//! of some valid value: heads must be minimal width and map keys strictly
//! ascending, so that every accepted input re-encodes to itself.

use vstd::prelude::*;
use vstd::utf8::{decode_utf8, encode_utf8, valid_utf8};

use crate::canon::{
    enc_data, enc_head, enc_list_from, enc_map_from, enc_text, enc_u16, enc_u32, enc_u64,
    entries_sorted, entry_views_of, key_bytes, key_bytes_lt, lex_lt, valid_data, view_value,
    views_of, CanonData, CanonValue,
};

verus! {

/// Bytes that the canonical decoder refuses.
#[derive(Debug)]
pub enum DecodeError {
    /// The bytes are not a well-formed item of the profile (truncated, an
    /// unknown initial byte, or text that is not UTF-8).
    Malformed,
    /// A well-formed item that is not in canonical form (a head wider than
    /// needed, or map keys out of order).
    NotCanonical,
    /// A well-formed item followed by leftover bytes.
    TrailingBytes,
}

impl DecodeError {
    /// A short description of the error.
    pub fn message(&self) -> (r: &'static str)
        ensures
            r@ == match self {
                DecodeError::Malformed => "bytes are not a well-formed canonical item"@,
                DecodeError::NotCanonical => "bytes are not in canonical form"@,
                DecodeError::TrailingBytes => "trailing bytes after canonical item"@,
            },
    {
        match self {
            DecodeError::Malformed => "bytes are not a well-formed canonical item",
            DecodeError::NotCanonical => "bytes are not in canonical form",
            DecodeError::TrailingBytes => "trailing bytes after canonical item",
        }
    }
}

pub open spec fn be16(a: u8, b: u8) -> u64 {
    ((a as int) * 0x100 + (b as int)) as u64
}

pub open spec fn be32(a: u8, b: u8, c: u8, d: u8) -> u64 {
    ((a as int) * 0x100_0000 + (b as int) * 0x1_0000 + (c as int) * 0x100 + (d as int)) as u64
}

pub open spec fn be64(s: Seq<u8>) -> u64
    recommends
        s.len() == 8,
{
    ((s[0] as int) * 0x100_0000_0000_0000 + (s[1] as int) * 0x1_0000_0000_0000 + (s[2] as int)
        * 0x100_0000_0000 + (s[3] as int) * 0x1_0000_0000 + (s[4] as int) * 0x100_0000 + (
    s[5] as int) * 0x1_0000 + (s[6] as int) * 0x100 + (s[7] as int)) as u64
}

/// Parses one head: major type, argument, rest. Accepts only the minimal
/// width for the argument.
pub open spec fn dec_head(s: Seq<u8>) -> Option<(u8, u64, Seq<u8>)> {
    if s.len() == 0 {
        None
    } else {
        let m = s[0] / 32;
        let ai = s[0] % 32;
        if ai < 24 {
            Some((m, ai as u64, s.skip(1)))
        } else if ai == 24 {
            if s.len() >= 2 && s[1] >= 24 {
                Some((m, s[1] as u64, s.skip(2)))
            } else {
                None
            }
        } else if ai == 25 {
            if s.len() >= 3 && be16(s[1], s[2]) >= 0x100 {
                Some((m, be16(s[1], s[2]), s.skip(3)))
            } else {
                None
            }
        } else if ai == 26 {
            if s.len() >= 5 && be32(s[1], s[2], s[3], s[4]) >= 0x1_0000 {
                Some((m, be32(s[1], s[2], s[3], s[4]), s.skip(5)))
            } else {
                None
            }
        } else if ai == 27 {
            if s.len() >= 9 && be64(s.subrange(1, 9)) >= 0x1_0000_0000 {
                Some((m, be64(s.subrange(1, 9)), s.skip(9)))
            } else {
                None
            }
        } else {
            None
        }
    }
}

/// Parses one value; `fuel` bounds the nesting and one unit more than the
/// input length is always enough.
pub open spec fn dec_data(s: Seq<u8>, fuel: nat) -> Option<(CanonData, Seq<u8>)>
    decreases fuel, 0nat,
{
    if fuel == 0 || s.len() == 0 {
        None
    } else if s[0] == 0xF4 {
        Some((CanonData::Bool(false), s.skip(1)))
    } else if s[0] == 0xF5 {
        Some((CanonData::Bool(true), s.skip(1)))
    } else if s[0] == 0xF6 {
        Some((CanonData::Null, s.skip(1)))
    } else if s[0] == 0xFB {
        if s.len() >= 9 {
            Some((CanonData::Float(be64(s.subrange(1, 9))), s.skip(9)))
        } else {
            None
        }
    } else if s[0] / 32 == 7 {
        None
    } else {
        match dec_head(s) {
            None => None,
            Some((m, n, r)) => {
                if m == 0 {
                    Some((CanonData::Int(n as int), r))
                } else if m == 1 {
                    Some((CanonData::Int(-1 - n as int), r))
                } else if m == 2 {
                    if r.len() >= n {
                        Some((CanonData::Bytes(r.take(n as int)), r.skip(n as int)))
                    } else {
                        None
                    }
                } else if m == 3 {
                    if r.len() >= n && valid_utf8(r.take(n as int)) {
                        Some((CanonData::Text(decode_utf8(r.take(n as int))), r.skip(n as int)))
                    } else {
                        None
                    }
                } else if m == 4 {
                    match dec_list(r, n, (fuel - 1) as nat) {
                        None => None,
                        Some((ds, r2)) => Some((CanonData::Array(ds), r2)),
                    }
                } else if m == 5 {
                    match dec_entries(r, n, (fuel - 1) as nat) {
                        None => None,
                        Some((es, r2)) => if entries_sorted(es) {
                            Some((CanonData::Dict(es), r2))
                        } else {
                            None
                        },
                    }
                } else {
                    None
                }
            },
        }
    }
}

/// Parses `n` consecutive values.
pub open spec fn dec_list(s: Seq<u8>, n: u64, fuel: nat) -> Option<(Seq<CanonData>, Seq<u8>)>
    decreases fuel, n,
{
    if n == 0 {
        Some((Seq::empty(), s))
    } else {
        match dec_data(s, fuel) {
            None => None,
            Some((d, r)) => match dec_list(r, (n - 1) as u64, fuel) {
                None => None,
                Some((ds, r2)) => Some((seq![d] + ds, r2)),
            },
        }
    }
}

/// Parses one text item (major type 3 only).
pub open spec fn dec_key(s: Seq<u8>) -> Option<(Seq<char>, Seq<u8>)> {
    match dec_head(s) {
        None => None,
        Some((m, n, r)) => {
            if m == 3 && r.len() >= n && valid_utf8(r.take(n as int)) {
                Some((decode_utf8(r.take(n as int)), r.skip(n as int)))
            } else {
                None
            }
        },
    }
}

/// Parses `n` consecutive key/value entries.
pub open spec fn dec_entries(s: Seq<u8>, n: u64, fuel: nat) -> Option<
    (Seq<(Seq<char>, CanonData)>, Seq<u8>),
>
    decreases fuel, n,
{
    if n == 0 {
        Some((Seq::empty(), s))
    } else {
        match dec_key(s) {
            None => None,
            Some((k, r)) => match dec_data(r, fuel) {
                None => None,
                Some((d, r2)) => match dec_entries(r2, (n - 1) as u64, fuel) {
                    None => None,
                    Some((es, r3)) => Some((seq![(k, d)] + es, r3)),
                },
            },
        }
    }
}

/// The decoding relation of the whole input: one canonical item, nothing
/// after it.
pub open spec fn decode_spec(s: Seq<u8>) -> Option<CanonData> {
    match dec_data(s, (s.len() + 1) as nat) {
        None => None,
        Some((d, rest)) => if rest.len() == 0 {
            Some(d)
        } else {
            None
        },
    }
}

// ---------------------------------------------------------------------------
// Sequence and arithmetic helpers.
// ---------------------------------------------------------------------------
pub proof fn lemma_concat_parts<T>(a: Seq<T>, b: Seq<T>)
    ensures
        (a + b).take(a.len() as int) == a,
        (a + b).skip(a.len() as int) == b,
{
    assert((a + b).take(a.len() as int) =~= a);
    assert((a + b).skip(a.len() as int) =~= b);
}

pub proof fn lemma_skip_skip<T>(s: Seq<T>, i: int, j: int)
    requires
        0 <= i,
        0 <= j,
        i + j <= s.len(),
    ensures
        s.skip(i).skip(j) == s.skip(i + j),
{
    assert(s.skip(i).skip(j) =~= s.skip(i + j));
}

/// The single head byte holds the major type above the argument bits.
proof fn lemma_head_byte(m: u8, ai: u8)
    requires
        m < 8,
        ai < 32,
    ensures
        (m * 32 + ai) / 32 == m,
        (m * 32 + ai) % 32 == ai,
{
    vstd::arithmetic::div_mod::lemma_fundamental_div_mod_converse(
        (m * 32 + ai) as int,
        32,
        m as int,
        ai as int,
    );
}

proof fn lemma_be16_recon(n: u64)
    requires
        n < 0x1_0000,
    ensures
        be16((n / 0x100) as u8, (n % 0x100) as u8) == n,
{
    assert(n / 0x100 < 0x100 && n % 0x100 < 0x100 && (n / 0x100) * 0x100 + n % 0x100 == n)
        by (bit_vector)
        requires
            n < 0x1_0000,
    ;
}

proof fn lemma_be16_bytes(a: u8, b: u8)
    ensures
        be16(a, b) < 0x1_0000,
        (be16(a, b) as int) / 0x100 == a as int,
        (be16(a, b) as int) % 0x100 == b as int,
{
    vstd::arithmetic::div_mod::lemma_fundamental_div_mod_converse(
        be16(a, b) as int,
        0x100,
        a as int,
        b as int,
    );
}

proof fn lemma_be32_recon(n: u64)
    requires
        n < 0x1_0000_0000,
    ensures
        be32(
            (n / 0x100_0000) as u8,
            ((n / 0x1_0000) % 0x100) as u8,
            ((n / 0x100) % 0x100) as u8,
            (n % 0x100) as u8,
        ) == n,
{
    assert(n / 0x100_0000 < 0x100 && (n / 0x1_0000) % 0x100 < 0x100 && (n / 0x100) % 0x100 < 0x100
        && n % 0x100 < 0x100 && (n / 0x100_0000) * 0x100_0000 + ((n / 0x1_0000) % 0x100) * 0x1_0000
        + ((n / 0x100) % 0x100) * 0x100 + n % 0x100 == n) by (bit_vector)
        requires
            n < 0x1_0000_0000,
    ;
}

proof fn lemma_be32_bytes(a: u8, b: u8, c: u8, d: u8)
    ensures
        be32(a, b, c, d) < 0x1_0000_0000,
        enc_u32(be32(a, b, c, d)) == seq![a, b, c, d],
{
    let au = a as u64;
    let bu = b as u64;
    let cu = c as u64;
    let du = d as u64;
    let n = be32(a, b, c, d);
    assert(n == au * 0x100_0000 + bu * 0x1_0000 + cu * 0x100 + du);
    assert(n < 0x1_0000_0000 && n / 0x100_0000 == au && (n / 0x1_0000) % 0x100 == bu && (n / 0x100)
        % 0x100 == cu && n % 0x100 == du) by (bit_vector)
        requires
            au < 0x100,
            bu < 0x100,
            cu < 0x100,
            du < 0x100,
            n == au * 0x100_0000 + bu * 0x1_0000 + cu * 0x100 + du,
    ;
    assert(enc_u32(n) =~= seq![a, b, c, d]);
}

proof fn lemma_be64_recon(n: u64)
    ensures
        be64(enc_u64(n)) == n,
{
    assert(n / 0x100_0000_0000_0000 < 0x100 && (n / 0x1_0000_0000_0000) % 0x100 < 0x100 && (n
        / 0x100_0000_0000) % 0x100 < 0x100 && (n / 0x1_0000_0000) % 0x100 < 0x100 && (n / 0x100_0000)
        % 0x100 < 0x100 && (n / 0x1_0000) % 0x100 < 0x100 && (n / 0x100) % 0x100 < 0x100 && n % 0x100
        < 0x100 && (n / 0x100_0000_0000_0000) * 0x100_0000_0000_0000 + ((n / 0x1_0000_0000_0000)
        % 0x100) * 0x1_0000_0000_0000 + ((n / 0x100_0000_0000) % 0x100) * 0x100_0000_0000 + ((n
        / 0x1_0000_0000) % 0x100) * 0x1_0000_0000 + ((n / 0x100_0000) % 0x100) * 0x100_0000 + ((n
        / 0x1_0000) % 0x100) * 0x1_0000 + ((n / 0x100) % 0x100) * 0x100 + n % 0x100 == n)
        by (bit_vector);
    assert(be64(enc_u64(n)) == n);
}

proof fn lemma_be64_bytes(s: Seq<u8>)
    requires
        s.len() == 8,
    ensures
        enc_u64(be64(s)) == s,
{
    let au = s[0] as u64;
    let bu = s[1] as u64;
    let cu = s[2] as u64;
    let du = s[3] as u64;
    let eu = s[4] as u64;
    let fu = s[5] as u64;
    let gu = s[6] as u64;
    let hu = s[7] as u64;
    let n = be64(s);
    assert(n == au * 0x100_0000_0000_0000 + bu * 0x1_0000_0000_0000 + cu * 0x100_0000_0000 + du
        * 0x1_0000_0000 + eu * 0x100_0000 + fu * 0x1_0000 + gu * 0x100 + hu);
    assert(n / 0x100_0000_0000_0000 == au && (n / 0x1_0000_0000_0000) % 0x100 == bu && (n
        / 0x100_0000_0000) % 0x100 == cu && (n / 0x1_0000_0000) % 0x100 == du && (n / 0x100_0000)
        % 0x100 == eu && (n / 0x1_0000) % 0x100 == fu && (n / 0x100) % 0x100 == gu && n % 0x100
        == hu) by (bit_vector)
        requires
            au < 0x100,
            bu < 0x100,
            cu < 0x100,
            du < 0x100,
            eu < 0x100,
            fu < 0x100,
            gu < 0x100,
            hu < 0x100,
            n == au * 0x100_0000_0000_0000 + bu * 0x1_0000_0000_0000 + cu * 0x100_0000_0000 + du
                * 0x1_0000_0000 + eu * 0x100_0000 + fu * 0x1_0000 + gu * 0x100 + hu,
    ;
    assert(enc_u64(n) =~= s);
}

/// Parsing a head that the encoder wrote gives back exactly its arguments.
proof fn lemma_head_complete(m: u8, n: u64, rest: Seq<u8>)
    requires
        m < 8,
    ensures
        dec_head(enc_head(m, n) + rest) == Some((m, n, rest)),
        (enc_head(m, n) + rest).len() > 0,
        enc_head(m, n).len() >= 1,
        (enc_head(m, n) + rest)[0] / 32 == m,
        (enc_head(m, n) + rest)[0] % 32 <= 27,
{
    let s = enc_head(m, n) + rest;
    if n < 24 {
        lemma_head_byte(m, n as u8);
        assert(s.skip(1) =~= rest);
    } else if n < 0x100 {
        lemma_head_byte(m, 24);
        assert(s.skip(2) =~= rest);
    } else if n < 0x1_0000 {
        lemma_head_byte(m, 25);
        lemma_be16_recon(n);
        assert(s.skip(3) =~= rest);
    } else if n < 0x1_0000_0000 {
        lemma_head_byte(m, 26);
        lemma_be32_recon(n);
        assert(s.skip(5) =~= rest);
    } else {
        lemma_head_byte(m, 27);
        lemma_be64_recon(n);
        assert(s.subrange(1, 9) =~= enc_u64(n));
        assert(s.skip(9) =~= rest);
    }
}

/// A head the decoder accepts is exactly re-written by the encoder.
proof fn lemma_head_sound(s: Seq<u8>)
    ensures
        dec_head(s) matches Some((m, n, r)) ==> m < 8 && r.len() < s.len() && s == enc_head(m, n)
            + r,
{
    if dec_head(s) is Some {
        let t = dec_head(s).unwrap();
        let m = t.0;
        let n = t.1;
        let r = t.2;
        let ai = s[0] % 32;
        assert(s[0] / 32 < 8 && s[0] % 32 < 32);
        assert(s[0] == (m * 32 + ai) as u8) by {
            vstd::arithmetic::div_mod::lemma_fundamental_div_mod(s[0] as int, 32);
        };
        if ai < 24 {
            assert(enc_head(m, n) =~= seq![s[0]]);
            assert(s =~= enc_head(m, n) + r);
        } else if ai == 24 {
            assert(enc_head(m, n) =~= seq![s[0], s[1]]);
            assert(s =~= enc_head(m, n) + r);
        } else if ai == 25 {
            lemma_be16_bytes(s[1], s[2]);
            assert(enc_u16(n) =~= seq![s[1], s[2]]);
            assert(enc_head(m, n) =~= seq![s[0]] + enc_u16(n));
            assert(s =~= enc_head(m, n) + r);
        } else if ai == 26 {
            lemma_be32_bytes(s[1], s[2], s[3], s[4]);
            assert(enc_head(m, n) =~= seq![s[0]] + enc_u32(n));
            assert(s =~= enc_head(m, n) + r);
        } else {
            lemma_be64_bytes(s.subrange(1, 9));
            assert(enc_head(m, n) =~= seq![s[0]] + enc_u64(n));
            assert(s =~= enc_head(m, n) + r);
        }
    }
}

proof fn lemma_enc_head_len(m: u8, n: u64)
    ensures
        1 <= enc_head(m, n).len() <= 9,
{
}

/// Every canonical encoding is at least one byte.
pub proof fn lemma_enc_min_len(d: CanonData)
    ensures
        enc_data(d).len() >= 1,
{
    match d {
        CanonData::Int(i) => {
            if i >= 0 {
                lemma_enc_head_len(0, i as u64);
            } else {
                lemma_enc_head_len(1, (-1 - i) as u64);
            }
        },
        CanonData::Text(s) => lemma_enc_head_len(3, encode_utf8(s).len() as u64),
        CanonData::Bytes(b) => lemma_enc_head_len(2, b.len() as u64),
        CanonData::Array(es) => lemma_enc_head_len(4, es.len() as u64),
        CanonData::Dict(es) => lemma_enc_head_len(5, es.len() as u64),
        _ => {},
    }
}

/// Shifting one element off the front of a list shifts its encoding.
proof fn lemma_enc_list_from_cons(d0: CanonData, ds: Seq<CanonData>, i: int)
    requires
        0 <= i <= ds.len(),
    ensures
        enc_list_from(seq![d0] + ds, i + 1) == enc_list_from(ds, i),
    decreases ds.len() - i,
{
    if i < ds.len() {
        lemma_enc_list_from_cons(d0, ds, i + 1);
        assert((seq![d0] + ds)[i + 1] == ds[i]);
    } else {
        assert(enc_list_from(seq![d0] + ds, i + 1) =~= Seq::<u8>::empty());
        assert(enc_list_from(ds, i) =~= Seq::<u8>::empty());
    }
}

proof fn lemma_enc_map_from_cons(e0: (Seq<char>, CanonData), es: Seq<(Seq<char>, CanonData)>, i: int)
    requires
        0 <= i <= es.len(),
    ensures
        enc_map_from(seq![e0] + es, i + 1) == enc_map_from(es, i),
    decreases es.len() - i,
{
    if i < es.len() {
        lemma_enc_map_from_cons(e0, es, i + 1);
        assert((seq![e0] + es)[i + 1] == es[i]);
    } else {
        assert(enc_map_from(seq![e0] + es, i + 1) =~= Seq::<u8>::empty());
        assert(enc_map_from(es, i) =~= Seq::<u8>::empty());
    }
}

/// Parsing a key the encoder wrote gives back exactly that key.
proof fn lemma_key_complete(k: Seq<char>, rest: Seq<u8>)
    requires
        encode_utf8(k).len() < 0x1_0000_0000_0000_0000,
    ensures
        dec_key(enc_text(k) + rest) == Some((k, rest)),
{
    let kb = encode_utf8(k);
    let n = kb.len() as u64;
    lemma_head_complete(3, n, kb + rest);
    assert(enc_text(k) + rest =~= enc_head(3, n) + (kb + rest));
    lemma_concat_parts(kb, rest);
    vstd::utf8::encode_utf8_valid_utf8(k);
    vstd::utf8::encode_utf8_decode_utf8(k);
}

/// Completeness for the leaf categories.
#[verifier::rlimit(100)]
proof fn lemma_complete_atom(d: CanonData, rest: Seq<u8>, fuel: nat)
    requires
        valid_data(d),
        fuel > enc_data(d).len(),
        !(d is Array),
        !(d is Dict),
    ensures
        dec_data(enc_data(d) + rest, fuel) == Some((d, rest)),
{
    let s = enc_data(d) + rest;
    lemma_enc_min_len(d);
    match d {
        CanonData::Int(i) => {
            if i >= 0 {
                lemma_head_complete(0, i as u64, rest);
            } else {
                lemma_head_complete(1, (-1 - i) as u64, rest);
            }
        },
        CanonData::Float(bits) => {
            assert(s[0] == 0xFB);
            assert(s.subrange(1, 9) =~= enc_u64(bits));
            lemma_be64_recon(bits);
            assert(s.skip(9) =~= rest);
        },
        CanonData::Text(t) => {
            let tb = encode_utf8(t);
            let n = tb.len() as u64;
            lemma_head_complete(3, n, tb + rest);
            assert(s =~= enc_head(3, n) + (tb + rest));
            lemma_concat_parts(tb, rest);
            vstd::utf8::encode_utf8_valid_utf8(t);
            vstd::utf8::encode_utf8_decode_utf8(t);
        },
        CanonData::Bytes(b) => {
            let n = b.len() as u64;
            lemma_head_complete(2, n, b + rest);
            assert(s =~= enc_head(2, n) + (b + rest));
            lemma_concat_parts(b, rest);
        },
        CanonData::Bool(b) => {
            assert(s.skip(1) =~= rest);
        },
        CanonData::Null => {
            assert(s.skip(1) =~= rest);
        },
        _ => {},
    }
}

/// Completeness assembly for arrays, given the element parse.
#[verifier::rlimit(100)]
proof fn lemma_complete_arr_step(es: Seq<CanonData>, rest: Seq<u8>, fuel: nat)
    requires
        es.len() < 0x1_0000_0000_0000_0000,
        fuel >= 1,
        dec_list(enc_list_from(es, 0) + rest, es.len() as u64, (fuel - 1) as nat) == Some(
            (es, rest),
        ),
    ensures
        dec_data(enc_data(CanonData::Array(es)) + rest, fuel) == Some((CanonData::Array(es), rest)),
{
    let s = enc_data(CanonData::Array(es)) + rest;
    let n = es.len() as u64;
    let payload = enc_list_from(es, 0);
    lemma_head_complete(4, n, payload + rest);
    assert(s =~= enc_head(4, n) + (payload + rest));
    assert(s[0] / 32 == 4 && s[0] != 0xF4 && s[0] != 0xF5 && s[0] != 0xF6 && s[0] != 0xFB);
}

/// Splitting a map's encoding plus a rest at the head boundary.
proof fn lemma_dict_enc_split(es: Seq<(Seq<char>, CanonData)>, rest: Seq<u8>)
    ensures
        enc_data(CanonData::Dict(es)) + rest == enc_head(5, es.len() as u64) + (enc_map_from(es, 0)
            + rest),
{
    assert(enc_data(CanonData::Dict(es)) + rest =~= enc_head(5, es.len() as u64) + (enc_map_from(
        es,
        0,
    ) + rest));
}

/// Completeness assembly for maps, given the entry parse.
#[verifier::rlimit(100)]
proof fn lemma_complete_dict_step(es: Seq<(Seq<char>, CanonData)>, rest: Seq<u8>, fuel: nat)
    requires
        es.len() < 0x1_0000_0000_0000_0000,
        entries_sorted(es),
        fuel >= 1,
        dec_entries(enc_map_from(es, 0) + rest, es.len() as u64, (fuel - 1) as nat) == Some(
            (es, rest),
        ),
    ensures
        dec_data(enc_data(CanonData::Dict(es)) + rest, fuel) == Some((CanonData::Dict(es), rest)),
{
    let s = enc_data(CanonData::Dict(es)) + rest;
    let n = es.len() as u64;
    let payload = enc_map_from(es, 0);
    lemma_head_complete(5, n, payload + rest);
    lemma_dict_enc_split(es, rest);
    assert(s[0] / 32 == 5 && s[0] != 0xF4 && s[0] != 0xF5 && s[0] != 0xF6 && s[0] != 0xFB);
}

/// Decoding inverts encoding: parsing the canonical encoding of a valid
/// value, followed by anything, yields exactly that value and the rest.
#[verifier::rlimit(100)]
pub proof fn lemma_complete(d: CanonData, rest: Seq<u8>, fuel: nat)
    requires
        valid_data(d),
        fuel > enc_data(d).len(),
    ensures
        dec_data(enc_data(d) + rest, fuel) == Some((d, rest)),
    decreases d, 0int,
{
    lemma_enc_min_len(d);
    match d {
        CanonData::Array(es) => {
            lemma_complete_list(es, 0, rest, (fuel - 1) as nat);
            assert(es.skip(0) =~= es);
            lemma_complete_arr_step(es, rest, fuel);
        },
        CanonData::Dict(es) => {
            lemma_complete_entries(es, 0, rest, (fuel - 1) as nat);
            assert(es.skip(0) =~= es);
            lemma_complete_dict_step(es, rest, fuel);
        },
        _ => {
            lemma_complete_atom(d, rest, fuel);
        },
    }
}

proof fn lemma_complete_list(es: Seq<CanonData>, i: int, rest: Seq<u8>, fuel: nat)
    requires
        es.len() < 0x1_0000_0000_0000_0000,
        0 <= i <= es.len(),
        forall|j: int| 0 <= j < es.len() ==> valid_data(#[trigger] es[j]),
        fuel > enc_list_from(es, i).len(),
    ensures
        dec_list(enc_list_from(es, i) + rest, (es.len() - i) as u64, fuel) == Some(
            (es.skip(i), rest),
        ),
    decreases es, es.len() - i,
{
    if i == es.len() {
        assert(enc_list_from(es, i) + rest =~= rest);
        assert(es.skip(i) =~= Seq::<CanonData>::empty());
    } else {
        let tail = enc_list_from(es, i + 1) + rest;
        lemma_complete(es[i], tail, fuel);
        assert(enc_list_from(es, i) + rest =~= enc_data(es[i]) + tail);
        lemma_complete_list(es, i + 1, rest, fuel);
        assert(seq![es[i]] + es.skip(i + 1) =~= es.skip(i));
    }
}

#[verifier::rlimit(100)]
proof fn lemma_complete_entries(
    es: Seq<(Seq<char>, CanonData)>,
    i: int,
    rest: Seq<u8>,
    fuel: nat,
)
    requires
        es.len() < 0x1_0000_0000_0000_0000,
        0 <= i <= es.len(),
        forall|j: int|
            0 <= j < es.len() ==> valid_data(#[trigger] es[j].1) && encode_utf8(es[j].0).len()
                < 0x1_0000_0000_0000_0000,
        fuel > enc_map_from(es, i).len(),
    ensures
        dec_entries(enc_map_from(es, i) + rest, (es.len() - i) as u64, fuel) == Some(
            (es.skip(i), rest),
        ),
    decreases es, es.len() - i,
{
    if i == es.len() {
        assert(enc_map_from(es, i) + rest =~= rest);
        assert(es.skip(i) =~= Seq::<(Seq<char>, CanonData)>::empty());
    } else {
        let k = es[i].0;
        let v = es[i].1;
        let tail1 = enc_data(v) + (enc_map_from(es, i + 1) + rest);
        lemma_key_complete(k, tail1);
        assert(enc_map_from(es, i) + rest =~= enc_text(k) + tail1);
        lemma_complete(v, enc_map_from(es, i + 1) + rest, fuel);
        lemma_complete_entries(es, i + 1, rest, fuel);
        assert(seq![(k, v)] + es.skip(i + 1) =~= es.skip(i));
        assert((k, v) == es[i]);
    }
}

/// A key the decoder accepts re-encodes to exactly the bytes it came from.
proof fn lemma_key_sound(s: Seq<u8>)
    ensures
        dec_key(s) matches Some((k, r)) ==> s == enc_text(k) + r && encode_utf8(k).len()
            < 0x1_0000_0000_0000_0000 && r.len() < s.len(),
{
    if dec_key(s) is Some {
        lemma_head_sound(s);
        let (m, n, r0) = dec_head(s).unwrap();
        let content = r0.take(n as int);
        vstd::utf8::decode_utf8_encode_utf8(content);
        assert(r0 =~= content + r0.skip(n as int));
        assert(s =~= enc_head(3, n) + content + r0.skip(n as int));
    }
}

/// Soundness assembly for arrays.
#[verifier::rlimit(100)]
proof fn lemma_sound_arr_step(s: Seq<u8>, n: u64, r0: Seq<u8>, ds: Seq<CanonData>, r2: Seq<u8>, fuel: nat)
    requires
        fuel >= 1,
        dec_head(s) == Some((4u8, n, r0)),
        s == enc_head(4, n) + r0,
        dec_list(r0, n, (fuel - 1) as nat) == Some((ds, r2)),
        ds.len() == n,
        r0 == enc_list_from(ds, 0) + r2,
    ensures
        dec_data(s, fuel) == Some((CanonData::Array(ds), r2)),
        s == enc_data(CanonData::Array(ds)) + r2,
{
    assert(s[0] / 32 == 4);
    assert(s[0] != 0xF4 && s[0] != 0xF5 && s[0] != 0xF6 && s[0] != 0xFB);
    assert(s =~= enc_head(4, ds.len() as u64) + enc_list_from(ds, 0) + r2);
}

/// Byte-level assembly for maps: head, entries and rest concatenate to the
/// whole encoding.
proof fn lemma_dict_bytes_assemble(
    s: Seq<u8>,
    n: u64,
    r0: Seq<u8>,
    es: Seq<(Seq<char>, CanonData)>,
    r2: Seq<u8>,
)
    requires
        s == enc_head(5, n) + r0,
        r0 == enc_map_from(es, 0) + r2,
        es.len() == n,
    ensures
        s == enc_data(CanonData::Dict(es)) + r2,
{
    assert(s =~= enc_head(5, es.len() as u64) + enc_map_from(es, 0) + r2);
}

/// Validity assembly for maps.
proof fn lemma_dict_valid(es: Seq<(Seq<char>, CanonData)>)
    requires
        es.len() < 0x1_0000_0000_0000_0000,
        entries_sorted(es),
        forall|j: int|
            0 <= j < es.len() ==> valid_data(#[trigger] es[j].1) && encode_utf8(es[j].0).len()
                < 0x1_0000_0000_0000_0000,
    ensures
        valid_data(CanonData::Dict(es)),
{
}

/// Soundness assembly for maps.
#[verifier::rlimit(100)]
proof fn lemma_sound_dict_step(
    s: Seq<u8>,
    n: u64,
    r0: Seq<u8>,
    es: Seq<(Seq<char>, CanonData)>,
    r2: Seq<u8>,
    fuel: nat,
)
    requires
        fuel >= 1,
        dec_head(s) == Some((5u8, n, r0)),
        s == enc_head(5, n) + r0,
        dec_entries(r0, n, (fuel - 1) as nat) == Some((es, r2)),
        es.len() == n,
        entries_sorted(es),
        forall|j: int|
            0 <= j < es.len() ==> valid_data(#[trigger] es[j].1) && encode_utf8(es[j].0).len()
                < 0x1_0000_0000_0000_0000,
        r0 == enc_map_from(es, 0) + r2,
    ensures
        dec_data(s, fuel) == Some((CanonData::Dict(es), r2)),
        s == enc_data(CanonData::Dict(es)) + r2,
        valid_data(CanonData::Dict(es)),
{
    assert(s[0] / 32 == 5);
    assert(s[0] != 0xF4 && s[0] != 0xF5 && s[0] != 0xF6 && s[0] != 0xFB);
    lemma_dict_bytes_assemble(s, n, r0, es, r2);
    lemma_dict_valid(es);
}

/// Soundness for the leaf categories.
#[verifier::rlimit(100)]
proof fn lemma_sound_atom(s: Seq<u8>, fuel: nat)
    requires
        dec_data(s, fuel) is Some,
        s.len() > 0,
        s[0] == 0xF4 || s[0] == 0xF5 || s[0] == 0xF6 || s[0] == 0xFB || s[0] / 32 <= 3,
    ensures
        dec_data(s, fuel) matches Some((d, r)) ==> valid_data(d) && s == enc_data(d) + r
            && r.len() < s.len(),
{
    let (d, r) = dec_data(s, fuel).unwrap();
    if s[0] == 0xF4 || s[0] == 0xF5 || s[0] == 0xF6 {
        assert(s =~= enc_data(d) + r);
    } else if s[0] == 0xFB {
        lemma_be64_bytes(s.subrange(1, 9));
        assert(s =~= seq![0xFBu8] + s.subrange(1, 9) + s.skip(9));
    } else {
        lemma_head_sound(s);
        let (m, n, r0) = dec_head(s).unwrap();
        if m == 0 || m == 1 {
            assert(s =~= enc_data(d) + r);
        } else if m == 2 {
            let content = r0.take(n as int);
            assert(r0 =~= content + r0.skip(n as int));
            assert(s =~= enc_head(2, n) + content + r0.skip(n as int));
        } else {
            let content = r0.take(n as int);
            vstd::utf8::decode_utf8_encode_utf8(content);
            assert(r0 =~= content + r0.skip(n as int));
            assert(s =~= enc_head(3, n) + content + r0.skip(n as int));
        }
    }
}

/// Soundness for arrays: parse the elements, then assemble.
#[verifier::rlimit(100)]
proof fn lemma_sound_arr(s: Seq<u8>, n: u64, r0: Seq<u8>, fuel: nat)
    requires
        fuel >= 1,
        dec_data(s, fuel) is Some,
        dec_head(s) == Some((4u8, n, r0)),
        s == enc_head(4, n) + r0,
    ensures
        dec_data(s, fuel) matches Some((d, r)) ==> valid_data(d) && s == enc_data(d) + r,
    decreases fuel, 0nat, 0nat,
{
    lemma_sound_list(r0, n, (fuel - 1) as nat);
    let (ds, r2) = dec_list(r0, n, (fuel - 1) as nat).unwrap();
    lemma_sound_arr_step(s, n, r0, ds, r2, fuel);
    assert(valid_data(CanonData::Array(ds)));
}

/// Soundness for maps: parse the entries, then assemble.
#[verifier::rlimit(100)]
proof fn lemma_sound_dict(s: Seq<u8>, n: u64, r0: Seq<u8>, fuel: nat)
    requires
        fuel >= 1,
        dec_data(s, fuel) is Some,
        dec_head(s) == Some((5u8, n, r0)),
        s == enc_head(5, n) + r0,
    ensures
        dec_data(s, fuel) matches Some((d, r)) ==> valid_data(d) && s == enc_data(d) + r,
    decreases fuel, 0nat, 0nat,
{
    lemma_sound_entries(r0, n, (fuel - 1) as nat);
    let (es, r2) = dec_entries(r0, n, (fuel - 1) as nat).unwrap();
    assert(s[0] / 32 == 5);
    assert(s[0] != 0xF4 && s[0] != 0xF5 && s[0] != 0xF6 && s[0] != 0xFB);
    assert(entries_sorted(es));
    lemma_sound_dict_step(s, n, r0, es, r2, fuel);
}

/// Every value the decoder accepts is valid and re-encodes to exactly the
/// bytes it was parsed from.
#[verifier::rlimit(100)]
pub proof fn lemma_sound(s: Seq<u8>, fuel: nat)
    ensures
        dec_data(s, fuel) matches Some((d, r)) ==> valid_data(d) && s == enc_data(d) + r,
    decreases fuel, 0nat, 1nat,
{
    if dec_data(s, fuel) is Some {
        if s[0] == 0xF4 || s[0] == 0xF5 || s[0] == 0xF6 || s[0] == 0xFB || s[0] / 32 <= 3 {
            lemma_sound_atom(s, fuel);
        } else {
            lemma_head_sound(s);
            let (m, n, r0) = dec_head(s).unwrap();
            if m == 4 {
                lemma_sound_arr(s, n, r0, fuel);
            } else {
                lemma_sound_dict(s, n, r0, fuel);
            }
        }
    }
}

#[verifier::rlimit(100)]
proof fn lemma_sound_list(s: Seq<u8>, n: u64, fuel: nat)
    ensures
        dec_list(s, n, fuel) matches Some((ds, r)) ==> ds.len() == n && (forall|j: int|
            0 <= j < ds.len() ==> valid_data(#[trigger] ds[j])) && s == enc_list_from(ds, 0) + r,
    decreases fuel, n, 2nat,
{
    if dec_list(s, n, fuel) is Some {
        if n == 0 {
            let (ds, r) = dec_list(s, n, fuel).unwrap();
            assert(enc_list_from(ds, 0) =~= Seq::<u8>::empty());
            assert(s =~= enc_list_from(ds, 0) + r);
        } else {
            lemma_sound(s, fuel);
            let (d0, r1) = dec_data(s, fuel).unwrap();
            lemma_sound_list(r1, (n - 1) as u64, fuel);
            let (ds1, r) = dec_list(r1, (n - 1) as u64, fuel).unwrap();
            let ds = seq![d0] + ds1;
            lemma_enc_list_from_cons(d0, ds1, 0);
            assert(ds[0] == d0);
            assert(enc_list_from(ds, 0) == enc_data(d0) + enc_list_from(ds1, 0));
            assert(s =~= enc_list_from(ds, 0) + r);
            assert(forall|j: int|
                0 < j < ds.len() ==> #[trigger] ds[j] == ds1[j - 1]);
        }
    }
}

/// Byte-level assembly for one parsed entry in front of the rest.
proof fn lemma_entries_step_bytes(
    s: Seq<u8>,
    k: Seq<char>,
    r1: Seq<u8>,
    d0: CanonData,
    r2: Seq<u8>,
    es1: Seq<(Seq<char>, CanonData)>,
    r: Seq<u8>,
)
    requires
        s == enc_text(k) + r1,
        r1 == enc_data(d0) + r2,
        r2 == enc_map_from(es1, 0) + r,
    ensures
        s == enc_map_from(seq![(k, d0)] + es1, 0) + r,
{
    lemma_enc_map_from_cons((k, d0), es1, 0);
    assert((seq![(k, d0)] + es1)[0] == (k, d0));
    assert(enc_map_from(seq![(k, d0)] + es1, 0) == enc_text(k) + enc_data(d0) + enc_map_from(
        es1,
        0,
    ));
    assert(s =~= enc_map_from(seq![(k, d0)] + es1, 0) + r);
}

#[verifier::rlimit(100)]
proof fn lemma_sound_entries(s: Seq<u8>, n: u64, fuel: nat)
    ensures
        dec_entries(s, n, fuel) matches Some((es, r)) ==> es.len() == n && (forall|j: int|
            0 <= j < es.len() ==> valid_data(#[trigger] es[j].1) && encode_utf8(es[j].0).len()
                < 0x1_0000_0000_0000_0000) && s == enc_map_from(es, 0) + r,
    decreases fuel, n, 2nat,
{
    if dec_entries(s, n, fuel) is Some {
        if n == 0 {
            let (es, r) = dec_entries(s, n, fuel).unwrap();
            assert(enc_map_from(es, 0) =~= Seq::<u8>::empty());
            assert(s =~= enc_map_from(es, 0) + r);
        } else {
            lemma_key_sound(s);
            let (k, r1) = dec_key(s).unwrap();
            lemma_sound(r1, fuel);
            let (d0, r2) = dec_data(r1, fuel).unwrap();
            lemma_sound_entries(r2, (n - 1) as u64, fuel);
            let (es1, r) = dec_entries(r2, (n - 1) as u64, fuel).unwrap();
            let es = seq![(k, d0)] + es1;
            assert(es[0] == (k, d0));
            lemma_entries_step_bytes(s, k, r1, d0, r2, es1, r);
            assert forall|j: int| 0 <= j < es.len() implies valid_data(#[trigger] es[j].1)
                && encode_utf8(es[j].0).len() < 0x1_0000_0000_0000_0000 by {
                if j > 0 {
                    assert(es[j] == es1[j - 1]);
                } else {
                    assert(es[0] == (k, d0));
                }
            }
        }
    }
}

/// The canonical encoding is injective over valid values.
pub proof fn lemma_enc_injective(d1: CanonData, d2: CanonData)
    requires
        valid_data(d1),
        valid_data(d2),
        enc_data(d1) == enc_data(d2),
    ensures
        d1 == d2,
{
    let fuel = (enc_data(d1).len() + 1) as nat;
    lemma_complete(d1, Seq::empty(), fuel);
    lemma_complete(d2, Seq::empty(), fuel);
    assert(enc_data(d1) + Seq::<u8>::empty() =~= enc_data(d1));
    assert(enc_data(d2) + Seq::<u8>::empty() =~= enc_data(d2));
}

/// The round trip at the heart of the format: decoding a canonical encoding
/// gives back exactly the encoded value.
pub proof fn lemma_decode_encode(d: CanonData)
    requires
        valid_data(d),
    ensures
        decode_spec(enc_data(d)) == Some(d),
{
    let s = enc_data(d);
    lemma_complete(d, Seq::empty(), (s.len() + 1) as nat);
    assert(s + Seq::<u8>::empty() =~= s);
}

// ---------------------------------------------------------------------------
// The executable decoder.
// ---------------------------------------------------------------------------
/// Relies on String::from_utf8: it succeeds exactly on valid UTF-8 input and
/// returns the string holding exactly those bytes.
#[verifier::external_body]
fn string_from_utf8(bytes: Vec<u8>) -> (r: Option<String>)
    ensures
        match r {
            Some(s) => valid_utf8(bytes@) && encode_utf8(s@) == bytes@,
            None => !valid_utf8(bytes@),
        },
{
    String::from_utf8(bytes).ok()
}

fn parse_head(bytes: &Vec<u8>, pos: usize) -> (r: Result<(u8, u64, usize), DecodeError>)
    requires
        pos <= bytes@.len(),
    ensures
        match r {

            Ok((m, n, j)) => pos < j <= bytes@.len() && m < 8 && dec_head(bytes@.skip(pos as int))
                == Some((m, n, bytes@.skip(j as int))),
            Err(_) => dec_head(bytes@.skip(pos as int)) is None,
        },
{
    broadcast use vstd::std_specs::vec::group_vec_axioms, vstd::seq::group_seq_axioms;

    let ghost s = bytes@.skip(pos as int);
    if pos >= bytes.len() {
        return Err(DecodeError::Malformed);
    }
    let b = bytes[pos];
    proof {
        assert(s[0] == b);
    }
    let m = b / 32;
    let ai = b % 32;
    if ai < 24 {
        proof {
            lemma_skip_skip(bytes@, pos as int, 1);
        }
        Ok((m, ai as u64, pos + 1))
    } else if ai == 24 {
        if bytes.len() - pos < 2 {
            return Err(DecodeError::Malformed);
        }
        let n = bytes[pos + 1];
        proof {
            assert(s[1] == n);
        }
        if n < 24 {
            return Err(DecodeError::NotCanonical);
        }
        proof {
            lemma_skip_skip(bytes@, pos as int, 2);
        }
        Ok((m, n as u64, pos + 2))
    } else if ai == 25 {
        if bytes.len() - pos < 3 {
            return Err(DecodeError::Malformed);
        }
        let n: u64 = (bytes[pos + 1] as u64) * 0x100 + (bytes[pos + 2] as u64);
        proof {
            assert(s[1] == bytes@[pos + 1] && s[2] == bytes@[pos + 2]);
            assert(n == be16(s[1], s[2]));
        }
        if n < 0x100 {
            return Err(DecodeError::NotCanonical);
        }
        proof {
            lemma_skip_skip(bytes@, pos as int, 3);
        }
        Ok((m, n, pos + 3))
    } else if ai == 26 {
        if bytes.len() - pos < 5 {
            return Err(DecodeError::Malformed);
        }
        let n: u64 = (bytes[pos + 1] as u64) * 0x100_0000 + (bytes[pos + 2] as u64) * 0x1_0000 + (
        bytes[pos + 3] as u64) * 0x100 + (bytes[pos + 4] as u64);
        proof {
            assert(s[1] == bytes@[pos + 1] && s[2] == bytes@[pos + 2] && s[3] == bytes@[pos + 3]
                && s[4] == bytes@[pos + 4]);
            assert(n == be32(s[1], s[2], s[3], s[4]));
        }
        if n < 0x1_0000 {
            return Err(DecodeError::NotCanonical);
        }
        proof {
            lemma_skip_skip(bytes@, pos as int, 5);
        }
        Ok((m, n, pos + 5))
    } else if ai == 27 {
        if bytes.len() - pos < 9 {
            return Err(DecodeError::Malformed);
        }
        let n = read_be64(bytes, pos + 1);
        proof {
            assert(s.subrange(1, 9) =~= bytes@.subrange(pos + 1, pos + 9));
        }
        if n < 0x1_0000_0000 {
            return Err(DecodeError::NotCanonical);
        }
        proof {
            lemma_skip_skip(bytes@, pos as int, 9);
        }
        Ok((m, n, pos + 9))
    } else {
        Err(DecodeError::Malformed)
    }
}

fn read_be64(bytes: &Vec<u8>, pos: usize) -> (n: u64)
    requires
        pos + 8 <= bytes@.len(),
    ensures
        n == be64(bytes@.subrange(pos as int, pos + 8)),
{
    broadcast use vstd::std_specs::vec::group_vec_axioms, vstd::seq::group_seq_axioms;

    let blen = bytes.len();
    let n: u64 = (bytes[pos] as u64) * 0x100_0000_0000_0000 + (bytes[pos + 1] as u64)
        * 0x1_0000_0000_0000 + (bytes[pos + 2] as u64) * 0x100_0000_0000 + (bytes[pos + 3] as u64)
        * 0x1_0000_0000 + (bytes[pos + 4] as u64) * 0x100_0000 + (bytes[pos + 5] as u64) * 0x1_0000
        + (bytes[pos + 6] as u64) * 0x100 + (bytes[pos + 7] as u64);
    proof {
        let s = bytes@.subrange(pos as int, pos + 8);
        assert(s[0] == bytes@[pos as int] && s[1] == bytes@[pos + 1] && s[2] == bytes@[pos + 2]
            && s[3] == bytes@[pos + 3] && s[4] == bytes@[pos + 4] && s[5] == bytes@[pos + 5] && s[6]
            == bytes@[pos + 6] && s[7] == bytes@[pos + 7]);
    }
    n
}

/// Reads `n` content bytes at `j`.
fn read_content(bytes: &Vec<u8>, j: usize, n: u64) -> (r: Result<(Vec<u8>, usize), DecodeError>)
    requires
        j <= bytes@.len(),
    ensures
        match r {

            Ok((content, k)) => j <= k <= bytes@.len() && n == k - j && content@ == bytes@.skip(
                j as int,
            ).take(n as int) && bytes@.skip(k as int) == bytes@.skip(j as int).skip(n as int),
            Err(_) => bytes@.skip(j as int).len() < n,
        },
{
    broadcast use vstd::std_specs::vec::group_vec_axioms, vstd::seq::group_seq_axioms;

    if n > (bytes.len() - j) as u64 {
        return Err(DecodeError::Malformed);
    }
    let k = j + (n as usize);
    let content = vstd::slice::slice_to_vec(vstd::slice::slice_subrange(bytes.as_slice(), j, k));
    proof {
        assert(bytes@.subrange(j as int, k as int) =~= bytes@.skip(j as int).take(n as int));
        lemma_skip_skip(bytes@, j as int, n as int);
    }
    Ok((content, k))
}

/// Parses one value starting at `pos`.
#[verifier::rlimit(100)]
fn parse_value(bytes: &Vec<u8>, pos: usize) -> (r: Result<(CanonValue, usize), DecodeError>)
    requires
        pos <= bytes@.len(),
    ensures
        match r {

            Ok((v, j)) => pos < j <= bytes@.len() && (forall|fuel: nat|
                fuel > bytes@.len() - pos ==> dec_data(bytes@.skip(pos as int), fuel) == Some(
                    (v@, bytes@.skip(j as int)),
                )),
            Err(_) => forall|fuel: nat|
                fuel > bytes@.len() - pos ==> dec_data(bytes@.skip(pos as int), fuel) is None,
        },
    decreases bytes@.len() - pos, 0nat,
{
    broadcast use vstd::std_specs::vec::group_vec_axioms, vstd::seq::group_seq_axioms;

    let ghost s = bytes@.skip(pos as int);
    if pos >= bytes.len() {
        return Err(DecodeError::Malformed);
    }
    let b = bytes[pos];
    proof {
        assert(s[0] == b);
    }
    if b == 0xF4 || b == 0xF5 || b == 0xF6 {
        let v = if b == 0xF4 {
            CanonValue::Bool(false)
        } else if b == 0xF5 {
            CanonValue::Bool(true)
        } else {
            CanonValue::Null
        };
        proof {
            lemma_skip_skip(bytes@, pos as int, 1);
            assert forall|fuel: nat| fuel > bytes@.len() - pos implies dec_data(s, fuel) == Some(
                (v@, bytes@.skip(pos + 1)),
            ) by {}
        }
        Ok((v, pos + 1))
    } else if b == 0xFB {
        if bytes.len() - pos < 9 {
            return Err(DecodeError::Malformed);
        }
        let n = read_be64(bytes, pos + 1);
        proof {
            assert(s.subrange(1, 9) =~= bytes@.subrange(pos + 1, pos + 9));
            lemma_skip_skip(bytes@, pos as int, 9);
            assert forall|fuel: nat| fuel > bytes@.len() - pos implies dec_data(s, fuel) == Some(
                ((CanonValue::Float(n))@, bytes@.skip(pos + 9)),
            ) by {}
        }
        Ok((CanonValue::Float(n), pos + 9))
    } else if b / 32 == 7 {
        Err(DecodeError::Malformed)
    } else {
        let head = parse_head(bytes, pos);
        match head {
            Err(e) => Err(e),
            Ok((m, n, j)) => {
                if m == 0 {
                    let v = CanonValue::Int(n as i128);
                    proof {
                        assert forall|fuel: nat| fuel > bytes@.len() - pos implies dec_data(
                            s,
                            fuel,
                        ) == Some((v@, bytes@.skip(j as int))) by {}
                    }
                    Ok((v, j))
                } else if m == 1 {
                    let v = CanonValue::Int(-1 - (n as i128));
                    proof {
                        assert forall|fuel: nat| fuel > bytes@.len() - pos implies dec_data(
                            s,
                            fuel,
                        ) == Some((v@, bytes@.skip(j as int))) by {}
                    }
                    Ok((v, j))
                } else if m == 2 {
                    match read_content(bytes, j, n) {
                        Err(e) => Err(e),
                        Ok((content, k)) => {
                            let v = CanonValue::Bytes(content);
                            proof {
                                assert forall|fuel: nat|
                                    fuel > bytes@.len() - pos implies dec_data(s, fuel) == Some(
                                    (v@, bytes@.skip(k as int)),
                                ) by {}
                            }
                            Ok((v, k))
                        },
                    }
                } else if m == 3 {
                    match read_content(bytes, j, n) {
                        Err(e) => Err(e),
                        Ok((content, k)) => {
                            let ghost cb = content@;
                            match string_from_utf8(content) {
                                None => Err(DecodeError::Malformed),
                                Some(st) => {
                                    let v = CanonValue::Text(st);
                                    proof {
                                        vstd::utf8::encode_utf8_decode_utf8(st@);
                                        assert forall|fuel: nat|
                                            fuel > bytes@.len() - pos implies dec_data(s, fuel)
                                            == Some((v@, bytes@.skip(k as int))) by {}
                                    }
                                    Ok((v, k))
                                },
                            }
                        },
                    }
                } else if m == 4 {
                    match parse_list(bytes, j, n) {
                        Err(e) => {
                            proof {
                                assert forall|fuel: nat|
                                    fuel > bytes@.len() - pos implies dec_data(s, fuel)
                                    is None by {
                                    assert((fuel - 1) as nat > bytes@.len() - j);
                                    assert(dec_list(
                                        bytes@.skip(j as int),
                                        n,
                                        (fuel - 1) as nat,
                                    ) is None);
                                }
                            }
                            Err(e)
                        },
                        Ok((vs, k)) => {
                            let v = CanonValue::Array(vs);
                            proof {
                                assert forall|fuel: nat|
                                    fuel > bytes@.len() - pos implies dec_data(s, fuel) == Some(
                                    (v@, bytes@.skip(k as int)),
                                ) by {
                                    assert((fuel - 1) as nat > bytes@.len() - j);
                                    assert(dec_list(bytes@.skip(j as int), n, (fuel - 1) as nat)
                                        == Some((views_of(vs), bytes@.skip(k as int))));
                                }
                            }
                            Ok((v, k))
                        },
                    }
                } else if m != 5 {
                    Err(DecodeError::Malformed)
                } else {
                    match parse_entries(bytes, j, n) {
                        Err(e) => {
                            proof {
                                assert forall|fuel: nat|
                                    fuel > bytes@.len() - pos implies dec_data(s, fuel)
                                    is None by {
                                    assert((fuel - 1) as nat > bytes@.len() - j);
                                    assert(dec_entries(
                                        bytes@.skip(j as int),
                                        n,
                                        (fuel - 1) as nat,
                                    ) is None);
                                }
                            }
                            Err(e)
                        },
                        Ok((es, k)) => {
                            if !entries_sorted_exec(&es) {
                                proof {
                                    assert forall|fuel: nat|
                                        fuel > bytes@.len() - pos implies dec_data(s, fuel)
                                        is None by {
                                        assert((fuel - 1) as nat > bytes@.len() - j);
                                        assert(dec_entries(
                                            bytes@.skip(j as int),
                                            n,
                                            (fuel - 1) as nat,
                                        ) == Some((entry_views_of(es), bytes@.skip(k as int))));
                                    }
                                }
                                return Err(DecodeError::NotCanonical);
                            }
                            let v = CanonValue::Dict(es);
                            proof {
                                assert forall|fuel: nat|
                                    fuel > bytes@.len() - pos implies dec_data(s, fuel) == Some(
                                    (v@, bytes@.skip(k as int)),
                                ) by {
                                    assert((fuel - 1) as nat > bytes@.len() - j);
                                    assert(dec_entries(bytes@.skip(j as int), n, (fuel - 1) as nat)
                                        == Some((entry_views_of(es), bytes@.skip(k as int))));
                                }
                            }
                            Ok((v, k))
                        },
                    }
                }
            },
        }
    }
}

/// Parses `count` consecutive values.
#[verifier::rlimit(100)]
fn parse_list(bytes: &Vec<u8>, pos: usize, count: u64) -> (r: Result<
    (Vec<CanonValue>, usize),
    DecodeError,
>)
    requires
        pos <= bytes@.len(),
    ensures
        match r {
            Ok((vs, j)) => pos <= j <= bytes@.len() && vs@.len() == count && (forall|fuel: nat|
                fuel > bytes@.len() - pos ==> dec_list(bytes@.skip(pos as int), count, fuel)
                    == Some((views_of(vs), bytes@.skip(j as int)))),
            Err(_) => forall|fuel: nat|
                fuel > bytes@.len() - pos ==> dec_list(bytes@.skip(pos as int), count, fuel)
                    is None,
        },
    decreases bytes@.len() - pos, count,
{
    broadcast use vstd::std_specs::vec::group_vec_axioms, vstd::seq::group_seq_axioms;
    if count == 0 {
        let vs: Vec<CanonValue> = Vec::new();
        proof {
            assert(views_of(vs) =~= Seq::<CanonData>::empty());
        }
        return Ok((vs, pos));
    }
    match parse_value(bytes, pos) {
        Err(e) => {
            proof {
                assert forall|fuel: nat|
                    fuel > bytes@.len() - pos implies dec_list(
                    bytes@.skip(pos as int),
                    count,
                    fuel,
                ) is None by {
                    assert(dec_data(bytes@.skip(pos as int), fuel) is None);
                }
            }
            Err(e)
        },
        Ok((v, j1)) => {
            match parse_list(bytes, j1, count - 1) {
                Err(e) => {
                    proof {
                        assert forall|fuel: nat|
                            fuel > bytes@.len() - pos implies dec_list(
                            bytes@.skip(pos as int),
                            count,
                            fuel,
                        ) is None by {
                            assert(dec_data(bytes@.skip(pos as int), fuel) == Some(
                                (v@, bytes@.skip(j1 as int)),
                            ));
                            assert(dec_list(bytes@.skip(j1 as int), (count - 1) as u64, fuel)
                                is None);
                        }
                    }
                    Err(e)
                },
                Ok((mut vs, j2)) => {
                    let ghost tailviews = views_of(vs);
                    vs.insert(0, v);
                    proof {
                        assert(views_of(vs) =~= seq![v@] + tailviews);
                        assert forall|fuel: nat|
                            fuel > bytes@.len() - pos implies dec_list(
                            bytes@.skip(pos as int),
                            count,
                            fuel,
                        ) == Some((views_of(vs), bytes@.skip(j2 as int))) by {
                            assert(dec_data(bytes@.skip(pos as int), fuel) == Some(
                                (v@, bytes@.skip(j1 as int)),
                            ));
                            assert(dec_list(bytes@.skip(j1 as int), (count - 1) as u64, fuel)
                                == Some((tailviews, bytes@.skip(j2 as int))));
                        }
                    }
                    Ok((vs, j2))
                },
            }
        },
    }
}

/// Parses one text key.
fn parse_key(bytes: &Vec<u8>, pos: usize) -> (r: Result<(String, usize), DecodeError>)
    requires
        pos <= bytes@.len(),
    ensures
        match r {

            Ok((k, j)) => pos < j <= bytes@.len() && dec_key(bytes@.skip(pos as int)) == Some(
                (k@, bytes@.skip(j as int)),
            ),
            Err(_) => dec_key(bytes@.skip(pos as int)) is None,
        },
{
    broadcast use vstd::std_specs::vec::group_vec_axioms, vstd::seq::group_seq_axioms;

    match parse_head(bytes, pos) {
        Err(e) => Err(e),
        Ok((m, n, j)) => {
            if m != 3 {
                return Err(DecodeError::Malformed);
            }
            match read_content(bytes, j, n) {
                Err(e) => Err(e),
                Ok((content, k)) => {
                    match string_from_utf8(content) {
                        None => Err(DecodeError::Malformed),
                        Some(st) => {
                            proof {
                                vstd::utf8::encode_utf8_decode_utf8(st@);
                            }
                            Ok((st, k))
                        },
                    }
                },
            }
        },
    }
}

/// Parses `count` consecutive key/value entries.
#[verifier::rlimit(100)]
fn parse_entries(bytes: &Vec<u8>, pos: usize, count: u64) -> (r: Result<
    (Vec<(String, CanonValue)>, usize),
    DecodeError,
>)
    requires
        pos <= bytes@.len(),
    ensures
        match r {
            Ok((es, j)) => pos <= j <= bytes@.len() && es@.len() == count && (forall|fuel: nat|
                fuel > bytes@.len() - pos ==> dec_entries(bytes@.skip(pos as int), count, fuel)
                    == Some((entry_views_of(es), bytes@.skip(j as int)))),
            Err(_) => forall|fuel: nat|
                fuel > bytes@.len() - pos ==> dec_entries(bytes@.skip(pos as int), count, fuel)
                    is None,
        },
    decreases bytes@.len() - pos, count,
{
    broadcast use vstd::std_specs::vec::group_vec_axioms, vstd::seq::group_seq_axioms;
    if count == 0 {
        let es: Vec<(String, CanonValue)> = Vec::new();
        proof {
            assert(entry_views_of(es) =~= Seq::<(Seq<char>, CanonData)>::empty());
        }
        return Ok((es, pos));
    }
    match parse_key(bytes, pos) {
        Err(e) => {
            proof {
                assert forall|fuel: nat|
                    fuel > bytes@.len() - pos implies dec_entries(
                    bytes@.skip(pos as int),
                    count,
                    fuel,
                ) is None by {
                    assert(dec_key(bytes@.skip(pos as int)) is None);
                }
            }
            Err(e)
        },
        Ok((k, j1)) => {
            match parse_value(bytes, j1) {
                Err(e) => {
                    proof {
                        assert forall|fuel: nat|
                            fuel > bytes@.len() - pos implies dec_entries(
                            bytes@.skip(pos as int),
                            count,
                            fuel,
                        ) is None by {
                            assert(dec_data(bytes@.skip(j1 as int), fuel) is None);
                        }
                    }
                    Err(e)
                },
                Ok((v, j2)) => {
                    match parse_entries(bytes, j2, count - 1) {
                        Err(e) => {
                            proof {
                                assert forall|fuel: nat|
                                    fuel > bytes@.len() - pos implies dec_entries(
                                    bytes@.skip(pos as int),
                                    count,
                                    fuel,
                                ) is None by {
                                    assert(dec_data(bytes@.skip(j1 as int), fuel) == Some(
                                        (v@, bytes@.skip(j2 as int)),
                                    ));
                                    assert(dec_entries(
                                        bytes@.skip(j2 as int),
                                        (count - 1) as u64,
                                        fuel,
                                    ) is None);
                                }
                            }
                            Err(e)
                        },
                        Ok((mut es, j3)) => {
                            let ghost tailviews = entry_views_of(es);
                            let ghost kv = k@;
                            let ghost vv = v@;
                            es.insert(0, (k, v));
                            proof {
                                assert(entry_views_of(es) =~= seq![(kv, vv)] + tailviews);
                                assert forall|fuel: nat|
                                    fuel > bytes@.len() - pos implies dec_entries(
                                    bytes@.skip(pos as int),
                                    count,
                                    fuel,
                                ) == Some((entry_views_of(es), bytes@.skip(j3 as int))) by {
                                    assert(dec_data(bytes@.skip(j1 as int), fuel) == Some(
                                        (vv, bytes@.skip(j2 as int)),
                                    ));
                                    assert(dec_entries(
                                        bytes@.skip(j2 as int),
                                        (count - 1) as u64,
                                        fuel,
                                    ) == Some((tailviews, bytes@.skip(j3 as int))));
                                }
                            }
                            Ok((es, j3))
                        },
                    }
                },
            }
        },
    }
}

/// Checks that entries are strictly ascending by key bytes.
#[verifier::loop_isolation(false)]
pub fn entries_sorted_exec(es: &Vec<(String, CanonValue)>) -> (r: bool)
    ensures
        r == entries_sorted(entry_views_of(*es)),
{
    broadcast use vstd::std_specs::vec::group_vec_axioms, vstd::seq::group_seq_axioms;

    let ghost evs = entry_views_of(*es);
    proof {
        assert(evs.len() == es@.len());
    }
    if es.len() <= 1 {
        proof {
            assert forall|i: int| 0 <= i && i + 1 < evs.len() implies lex_lt(
                key_bytes(#[trigger] evs[i].0),
                key_bytes(evs[i + 1].0),
            ) by {}
        }
        return true;
    }
    let mut k: usize = 0;
    while k < es.len() - 1
        invariant
            k < es@.len(),
            forall|i: int|
                0 <= i < k ==> lex_lt(key_bytes(#[trigger] evs[i].0), key_bytes(evs[i + 1].0)),
        decreases es@.len() - k,
    {
        if !key_bytes_lt(&es[k].0, &es[k + 1].0) {
            proof {
                assert(k + 1 < es@.len());
                assert(evs[k as int].0 == es@[k as int].0@ && evs[k + 1].0 == es@[k + 1].0@);
                assert(!lex_lt(key_bytes(evs[k as int].0), key_bytes(evs[k as int + 1].0)));
                assert(!entries_sorted(evs));
            }
            return false;
        }
        proof {
            assert(evs[k as int].0 == es@[k as int].0@ && evs[k + 1].0 == es@[k + 1].0@);
            assert(lex_lt(key_bytes(evs[k as int].0), key_bytes(evs[k as int + 1].0)));
        }
        k += 1;
    }
    proof {
        assert forall|i: int| 0 <= i && i + 1 < evs.len() implies lex_lt(
            key_bytes(#[trigger] evs[i].0),
            key_bytes(evs[i + 1].0),
        ) by {}
    }
    true
}

/// Decodes one canonical item that fills the whole input. Succeeds exactly
/// when the bytes are the canonical encoding of one valid value, and then
/// returns that value: re-encoding it reproduces the input bytes.
pub fn from_canonical_cbor(bytes: &Vec<u8>) -> (r: Result<CanonValue, DecodeError>)
    ensures
        match r {

            Ok(v) => valid_data(v@) && enc_data(v@) == bytes@ && decode_spec(bytes@) == Some(v@),
            Err(_) => decode_spec(bytes@) is None,
        },
{
    broadcast use vstd::std_specs::vec::group_vec_axioms, vstd::seq::group_seq_axioms;

    proof {
        assert(bytes@.skip(0) =~= bytes@);
    }
    match parse_value(bytes, 0) {
        Err(e) => Err(e),
        Ok((v, j)) => {
            if j != bytes.len() {
                proof {
                    assert(bytes@.skip(j as int).len() != 0);
                }
                return Err(DecodeError::TrailingBytes);
            }
            proof {
                assert(bytes@.skip(j as int) =~= Seq::<u8>::empty());
                lemma_sound(bytes@, (bytes@.len() + 1) as nat);
                assert(bytes@ =~= enc_data(v@) + Seq::<u8>::empty());
                assert(enc_data(v@) =~= enc_data(v@) + Seq::<u8>::empty());
            }
            Ok(v)
        },
    }
}

} // verus!
