//! The format's global guarantees, stated and proved once.

use vstd::prelude::*;

use crate::canon::{
    dict_insert, enc_data, entries_sorted, key_bytes, lemma_dict_insert_sorted, lemma_lex_asym,
    lemma_lex_irrefl, lemma_lex_trans, lemma_lex_trichotomy, lex_lt, valid_data, CanonData,
};
use crate::decode::{decode_spec, lemma_decode_encode, lemma_enc_injective, lemma_sound};
use crate::fingerprint::material_data;

verus! {

/// Determinism: the canonical encoding is a pure function of the value, so
/// structurally equal values encode to identical bytes, on every call and in
/// every conforming implementation.
pub proof fn law_determinism(d1: CanonData, d2: CanonData)
    requires
        d1 == d2,
    ensures
        enc_data(d1) == enc_data(d2),
{
}

/// Round trip: decoding a canonical encoding gives back exactly the encoded
/// value, and whatever decodes re-encodes to the very bytes it came from, so
/// encoding a decoded encoding reproduces the original bytes.
pub proof fn law_round_trip(d: CanonData, bytes: Seq<u8>)
    requires
        valid_data(d),
    ensures
        decode_spec(enc_data(d)) == Some(d),
        decode_spec(bytes) matches Some(w) ==> valid_data(w) && enc_data(w) == bytes,
{
    lemma_decode_encode(d);
    if decode_spec(bytes) is Some {
        lemma_sound(bytes, (bytes.len() + 1) as nat);
        let (w, rest) = crate::decode::dec_data(bytes, (bytes.len() + 1) as nat).unwrap();
        assert(bytes =~= enc_data(w) + rest);
        assert(enc_data(w) =~= enc_data(w) + Seq::<u8>::empty());
    }
}

/// Fingerprint order sensitivity: the digested bytes of the schema triple
/// `(a, b, c)` differ from those of `(b, a, c)` whenever `a != b`, because
/// the canonical encoding is injective over valid values.
pub proof fn law_fingerprint_order(a: CanonData, b: CanonData, c: CanonData)
    requires
        valid_data(a),
        valid_data(b),
        valid_data(c),
        a != b,
    ensures
        enc_data(material_data(a, b, c)) != enc_data(material_data(b, a, c)),
{
    let m1 = material_data(a, b, c);
    let m2 = material_data(b, a, c);
    crate::fingerprint::lemma_material_sorted(a, b, c);
    crate::fingerprint::lemma_material_sorted(b, a, c);
    if enc_data(m1) == enc_data(m2) {
        lemma_enc_injective(m1, m2);
        assert((m1->Dict_0)[1] == ("input"@, a));
        assert((m2->Dict_0)[1] == ("input"@, b));
    }
}

/// The value a key maps to in an entry list, scanning from the front.
pub open spec fn dict_lookup(es: Seq<(Seq<char>, CanonData)>, k: Seq<char>) -> Option<CanonData>
    decreases es.len(),
{
    if es.len() == 0 {
        None
    } else if es[0].0 == k {
        Some(es[0].1)
    } else {
        dict_lookup(es.skip(1), k)
    }
}

/// Forward compatibility: adding one entry under an unrecognized key,
/// anywhere in a map, changes no lookup of any other key. A consumer that
/// reads known keys sees the same value with or without the unknown field.
pub proof fn law_unknown_field_ignored(
    es: Seq<(Seq<char>, CanonData)>,
    p: int,
    extra: (Seq<char>, CanonData),
    k: Seq<char>,
)
    requires
        0 <= p <= es.len(),
        extra.0 != k,
    ensures
        dict_lookup(es.insert(p, extra), k) == dict_lookup(es, k),
    decreases es.len(),
{
    let es2 = es.insert(p, extra);
    if p == 0 {
        assert(es2[0] == extra);
        assert(es2.skip(1) =~= es);
    } else {
        assert(es2[0] == es[0]);
        if es[0].0 != k {
            law_unknown_field_ignored(es.skip(1), p - 1, extra, k);
            assert(es2.skip(1) =~= es.skip(1).insert(p - 1, extra));
        }
    }
}

/// The ordered half of insertion commutativity.
#[verifier::rlimit(100)]
proof fn lemma_insert_commutes_ordered(
    es: Seq<(Seq<char>, CanonData)>,
    k1: Seq<char>,
    v1: CanonData,
    k2: Seq<char>,
    v2: CanonData,
)
    requires
        entries_sorted(es),
        lex_lt(key_bytes(k1), key_bytes(k2)),
    ensures
        dict_insert(dict_insert(es, k1, v1), k2, v2) == dict_insert(
            dict_insert(es, k2, v2),
            k1,
            v1,
        ),
    decreases es.len(),
{
    let kb1 = key_bytes(k1);
    let kb2 = key_bytes(k2);
    lemma_lex_asym(kb1, kb2);
    lemma_lex_irrefl(kb1);
    let l1 = dict_insert(es, k1, v1);
    let r1 = dict_insert(es, k2, v2);
    if es.len() == 0 {
        assert(l1 == seq![(k1, v1)]);
        assert(l1.skip(1) =~= Seq::<(Seq<char>, CanonData)>::empty());
        assert(dict_insert(l1.skip(1), k2, v2) == seq![(k2, v2)]);
        assert(dict_insert(l1, k2, v2) =~= seq![(k1, v1), (k2, v2)]);
        assert(r1 == seq![(k2, v2)]);
        assert(dict_insert(r1, k1, v1) =~= seq![(k1, v1), (k2, v2)]);
    } else {
        let e0 = es[0];
        let kb0 = key_bytes(e0.0);
        let tail = es.skip(1);
        assert(entries_sorted(tail)) by {
            assert(forall|i: int|
                0 <= i && i + 1 < tail.len() ==> #[trigger] tail[i] == es[i + 1] && tail[i + 1]
                    == es[i + 2]);
        }
        if lex_lt(kb1, kb0) {
            assert(l1 == seq![(k1, v1)] + es);
            assert(dict_insert(l1, k2, v2) == seq![(k1, v1)] + dict_insert(es, k2, v2)) by {
                assert(l1[0] == (k1, v1));
                assert(l1.skip(1) =~= es);
            }
            lemma_dict_insert_sorted(es, k2, v2);
            assert(lex_lt(kb1, key_bytes(r1[0].0))) by {
                if r1[0] == (k2, v2) {
                } else {
                    assert(r1[0] == e0);
                }
            }
            assert(dict_insert(r1, k1, v1) == seq![(k1, v1)] + r1);
        } else if kb1 == kb0 {
            assert(l1 == seq![(k1, v1)] + tail);
            assert(dict_insert(l1, k2, v2) == seq![(k1, v1)] + dict_insert(tail, k2, v2)) by {
                assert(l1[0] == (k1, v1));
                assert(l1.skip(1) =~= tail);
            }
            assert(lex_lt(kb0, kb2));
            assert(r1 == seq![e0] + dict_insert(tail, k2, v2)) by {
                lemma_lex_asym(kb0, kb2);
                lemma_lex_irrefl(kb0);
            }
            assert(dict_insert(r1, k1, v1) == seq![(k1, v1)] + dict_insert(tail, k2, v2)) by {
                assert(r1[0] == e0);
                assert(r1.skip(1) =~= dict_insert(tail, k2, v2));
            }
        } else {
            assert(lex_lt(kb0, kb1)) by {
                if !lex_lt(kb0, kb1) {
                    lemma_lex_trichotomy(kb1, kb0);
                }
            }
            lemma_lex_trans(kb0, kb1, kb2);
            lemma_lex_asym(kb0, kb1);
            lemma_lex_asym(kb0, kb2);
            lemma_lex_irrefl(kb0);
            assert(l1 == seq![e0] + dict_insert(tail, k1, v1));
            assert(r1 == seq![e0] + dict_insert(tail, k2, v2));
            assert(dict_insert(l1, k2, v2) == seq![e0] + dict_insert(
                dict_insert(tail, k1, v1),
                k2,
                v2,
            )) by {
                assert(l1[0] == e0);
                assert(l1.skip(1) =~= dict_insert(tail, k1, v1));
            }
            assert(dict_insert(r1, k1, v1) == seq![e0] + dict_insert(
                dict_insert(tail, k2, v2),
                k1,
                v1,
            )) by {
                assert(r1[0] == e0);
                assert(r1.skip(1) =~= dict_insert(tail, k2, v2));
            }
            lemma_insert_commutes_ordered(tail, k1, v1, k2, v2);
        }
    }
}

/// Key-order independence: inserting the same key-value pairs in either
/// order builds the same sorted entry list, so the canonical map — and its
/// encoding — depends only on the key-value contents, never on insertion
/// history.
pub proof fn law_key_order_independence(
    es: Seq<(Seq<char>, CanonData)>,
    k1: Seq<char>,
    v1: CanonData,
    k2: Seq<char>,
    v2: CanonData,
)
    requires
        entries_sorted(es),
        key_bytes(k1) != key_bytes(k2),
    ensures
        dict_insert(dict_insert(es, k1, v1), k2, v2) == dict_insert(
            dict_insert(es, k2, v2),
            k1,
            v1,
        ),
        enc_data(CanonData::Dict(dict_insert(dict_insert(es, k1, v1), k2, v2))) == enc_data(
            CanonData::Dict(dict_insert(dict_insert(es, k2, v2), k1, v1)),
        ),
{
    if lex_lt(key_bytes(k1), key_bytes(k2)) {
        lemma_insert_commutes_ordered(es, k1, v1, k2, v2);
    } else if lex_lt(key_bytes(k2), key_bytes(k1)) {
        lemma_insert_commutes_ordered(es, k2, v2, k1, v1);
    } else {
        lemma_lex_trichotomy(key_bytes(k1), key_bytes(k2));
    }
}

} // verus!
