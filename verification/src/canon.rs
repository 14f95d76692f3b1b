//! The canonical value model and the deterministic binary encoder.
//!
//! Values are drawn from a fixed set of primitive categories (integers,
//! IEEE-754 bit patterns, UTF-8 text, byte strings, booleans, null, ordered
//! sequences, key-ordered maps) and encode to exactly one byte sequence,
//! following the network-byte-order CBOR major-type discipline with
//! minimal-width heads and map keys sorted by their UTF-8 byte sequence.

use vstd::prelude::*;
use vstd::arithmetic::power2::pow2;
use vstd::utf8::{decode_utf8, encode_utf8, valid_utf8};

verus! {

broadcast use vstd::std_specs::vec::group_vec_axioms, vstd::seq::group_seq_axioms;

/// Mathematical model of a canonical value.
pub enum CanonData {
    Int(int),
    Float(u64),
    Text(Seq<char>),
    Bytes(Seq<u8>),
    Bool(bool),
    Null,
    Array(Seq<CanonData>),
    Dict(Seq<(Seq<char>, CanonData)>),
}

/// Lexicographic strict order on byte sequences: the order map keys are
/// sorted by (over their UTF-8 bytes).
#[verifier::opaque]
pub open spec fn lex_lt(a: Seq<u8>, b: Seq<u8>) -> bool
    decreases a.len(),
{
    b.len() > 0 && (a.len() == 0 || a[0] < b[0] || (a[0] == b[0] && lex_lt(a.skip(1), b.skip(1))))
}

/// The byte sequence a map key is ordered by.
pub open spec fn key_bytes(k: Seq<char>) -> Seq<u8> {
    encode_utf8(k)
}

pub proof fn lemma_lex_irrefl(a: Seq<u8>)
    ensures
        !lex_lt(a, a),
    decreases a.len(),
{
    reveal(lex_lt);
    if a.len() > 0 {
        lemma_lex_irrefl(a.skip(1));
    }
}

pub proof fn lemma_lex_asym(a: Seq<u8>, b: Seq<u8>)
    requires
        lex_lt(a, b),
    ensures
        !lex_lt(b, a),
    decreases a.len(),
{
    reveal(lex_lt);
    if a.len() > 0 && b.len() > 0 && a[0] == b[0] {
        lemma_lex_asym(a.skip(1), b.skip(1));
    }
}

pub proof fn lemma_lex_trans(a: Seq<u8>, b: Seq<u8>, c: Seq<u8>)
    requires
        lex_lt(a, b),
        lex_lt(b, c),
    ensures
        lex_lt(a, c),
    decreases a.len(),
{
    reveal(lex_lt);
    if a.len() > 0 && b.len() > 0 && a[0] == b[0] && b[0] == c[0] {
        lemma_lex_trans(a.skip(1), b.skip(1), c.skip(1));
    }
}

/// Two byte sequences neither of which is below the other are equal.
pub proof fn lemma_lex_trichotomy(a: Seq<u8>, b: Seq<u8>)
    requires
        !lex_lt(a, b),
        !lex_lt(b, a),
    ensures
        a == b,
    decreases a.len(),
{
    reveal(lex_lt);
    if a.len() == 0 && b.len() == 0 {
        assert(a =~= b);
    } else if a.len() > 0 && b.len() > 0 {
        lemma_lex_trichotomy(a.skip(1), b.skip(1));
        assert(a =~= b) by {
            assert(forall|i: int| 1 <= i < a.len() ==> a[i] == a.skip(1)[i - 1]);
            assert(forall|i: int| 1 <= i < b.len() ==> b[i] == b.skip(1)[i - 1]);
        }
    }
}

/// Equal key byte sequences come from equal keys: UTF-8 encoding is
/// injective.
pub proof fn lemma_key_bytes_injective(a: Seq<char>, b: Seq<char>)
    requires
        key_bytes(a) == key_bytes(b),
    ensures
        a == b,
{
    vstd::utf8::encode_utf8_decode_utf8(a);
    vstd::utf8::encode_utf8_decode_utf8(b);
}

/// Map entries are strictly ascending by key byte sequence.
pub open spec fn entries_sorted(es: Seq<(Seq<char>, CanonData)>) -> bool {
    forall|i: int|
        0 <= i && i + 1 < es.len() ==> lex_lt(key_bytes(#[trigger] es[i].0), key_bytes(es[i + 1].0))
}

pub open spec fn u64_max_plus_one() -> int {
    0x1_0000_0000_0000_0000
}

/// Structural validity: integers within the 65-bit encodable range, lengths
/// encodable in a 64-bit head, map keys strictly sorted.
pub open spec fn valid_data(d: CanonData) -> bool
    decreases d,
{
    match d {
        CanonData::Int(i) => -u64_max_plus_one() <= i < u64_max_plus_one(),
        CanonData::Float(_) => true,
        CanonData::Text(s) => encode_utf8(s).len() < u64_max_plus_one(),
        CanonData::Bytes(b) => b.len() < u64_max_plus_one(),
        CanonData::Bool(_) => true,
        CanonData::Null => true,
        CanonData::Array(es) => es.len() < u64_max_plus_one() && (forall|i: int|
            0 <= i < es.len() ==> valid_data(#[trigger] es[i])),
        CanonData::Dict(es) => es.len() < u64_max_plus_one() && entries_sorted(es) && (forall|
            i: int,
        |
            0 <= i < es.len() ==> valid_data(#[trigger] es[i].1) && encode_utf8(es[i].0).len()
                < u64_max_plus_one()),
    }
}

// IEEE-754 binary64 fields, read from the bit pattern.
pub open spec fn f64_exp(bits: u64) -> u64 {
    (bits / 0x10_0000_0000_0000) % 0x800
}

pub open spec fn f64_frac(bits: u64) -> u64 {
    bits % 0x10_0000_0000_0000
}

/// Finite means the exponent field is not all ones (not NaN, not an infinity).
pub open spec fn f64_is_finite(bits: u64) -> bool {
    f64_exp(bits) != 0x7FF
}

/// Whether the binary64 value is mathematically an integer (zero included).
pub open spec fn f64_is_integral(bits: u64) -> bool {
    if !f64_is_finite(bits) {
        false
    } else if f64_exp(bits) == 0 {
        f64_frac(bits) == 0
    } else if f64_exp(bits) >= 1075 {
        true
    } else if f64_exp(bits) < 1023 {
        false
    } else {
        f64_frac(bits) % (pow2((1075 - f64_exp(bits)) as nat) as u64) == 0
    }
}

/// A float the strict policy accepts: finite and not mathematically an
/// integer (an integral value must be encoded as an integer, never as a
/// float, so that the canonical form is unambiguous).
pub open spec fn strict_float_ok(bits: u64) -> bool {
    f64_is_finite(bits) && !f64_is_integral(bits)
}

/// The strict policy holds of a value when every float inside it is strict.
pub open spec fn strict_ok(d: CanonData) -> bool
    decreases d,
{
    match d {
        CanonData::Float(bits) => strict_float_ok(bits),
        CanonData::Array(es) => forall|i: int| 0 <= i < es.len() ==> strict_ok(#[trigger] es[i]),
        CanonData::Dict(es) => forall|i: int| 0 <= i < es.len() ==> strict_ok(#[trigger] es[i].1),
        _ => true,
    }
}

// ---------------------------------------------------------------------------
// The encoding itself, as a mathematical function.
// ---------------------------------------------------------------------------
pub open spec fn enc_u16(n: u64) -> Seq<u8> {
    seq![(n / 0x100) as u8, (n % 0x100) as u8]
}

pub open spec fn enc_u32(n: u64) -> Seq<u8> {
    seq![
        (n / 0x100_0000) as u8,
        ((n / 0x1_0000) % 0x100) as u8,
        ((n / 0x100) % 0x100) as u8,
        (n % 0x100) as u8,
    ]
}

pub open spec fn enc_u64(n: u64) -> Seq<u8> {
    seq![
        (n / 0x100_0000_0000_0000) as u8,
        ((n / 0x1_0000_0000_0000) % 0x100) as u8,
        ((n / 0x100_0000_0000) % 0x100) as u8,
        ((n / 0x1_0000_0000) % 0x100) as u8,
        ((n / 0x100_0000) % 0x100) as u8,
        ((n / 0x1_0000) % 0x100) as u8,
        ((n / 0x100) % 0x100) as u8,
        (n % 0x100) as u8,
    ]
}

/// Minimal-width head: major type in the top three bits, then the shortest
/// argument encoding that holds `n`.
pub open spec fn enc_head(major: u8, n: u64) -> Seq<u8>
    recommends
        major < 8,
{
    if n < 24 {
        seq![(major * 32 + n) as u8]
    } else if n < 0x100 {
        seq![(major * 32 + 24) as u8, n as u8]
    } else if n < 0x1_0000 {
        seq![(major * 32 + 25) as u8] + enc_u16(n)
    } else if n < 0x1_0000_0000 {
        seq![(major * 32 + 26) as u8] + enc_u32(n)
    } else {
        seq![(major * 32 + 27) as u8] + enc_u64(n)
    }
}

/// Encoding of a text item (major type 3): head over the UTF-8 byte length,
/// then the bytes, no terminator.
pub open spec fn enc_text(s: Seq<char>) -> Seq<u8> {
    enc_head(3, encode_utf8(s).len() as u64) + encode_utf8(s)
}

/// The canonical encoding of a value.
pub open spec fn enc_data(d: CanonData) -> Seq<u8>
    decreases d, 0int,
{
    match d {
        CanonData::Int(i) => if i >= 0 {
            enc_head(0, i as u64)
        } else {
            enc_head(1, (-1 - i) as u64)
        },
        CanonData::Float(bits) => seq![0xFBu8] + enc_u64(bits),
        CanonData::Text(s) => enc_text(s),
        CanonData::Bytes(b) => enc_head(2, b.len() as u64) + b,
        CanonData::Bool(b) => if b {
            seq![0xF5u8]
        } else {
            seq![0xF4u8]
        },
        CanonData::Null => seq![0xF6u8],
        CanonData::Array(es) => enc_head(4, es.len() as u64) + enc_list_from(es, 0),
        CanonData::Dict(es) => enc_head(5, es.len() as u64) + enc_map_from(es, 0),
    }
}

/// Concatenated encodings of the elements from index `i` on.
pub open spec fn enc_list_from(es: Seq<CanonData>, i: int) -> Seq<u8>
    decreases es, es.len() - i,
{
    if i < 0 || i >= es.len() {
        Seq::empty()
    } else {
        enc_data(es[i]) + enc_list_from(es, i + 1)
    }
}

/// Concatenated key/value encodings of the entries from index `i` on.
pub open spec fn enc_map_from(es: Seq<(Seq<char>, CanonData)>, i: int) -> Seq<u8>
    decreases es, es.len() - i,
{
    if i < 0 || i >= es.len() {
        Seq::empty()
    } else {
        enc_text(es[i].0) + enc_data(es[i].1) + enc_map_from(es, i + 1)
    }
}

// ---------------------------------------------------------------------------
// The executable value and encoder.
// ---------------------------------------------------------------------------
/// A canonical value as built and consumed by executable code. Floats are
/// carried as their IEEE-754 binary64 bit pattern, so that the encoder is a
/// pure function of bits.
pub enum CanonValue {
    Int(i128),
    Float(u64),
    Text(String),
    Bytes(Vec<u8>),
    Bool(bool),
    Null,
    Array(Vec<CanonValue>),
    Dict(Vec<(String, CanonValue)>),
}

pub open spec fn view_value(v: CanonValue) -> CanonData
    decreases v, 1int,
{
    match v {
        CanonValue::Int(i) => CanonData::Int(i as int),
        CanonValue::Float(bits) => CanonData::Float(bits),
        CanonValue::Text(s) => CanonData::Text(s@),
        CanonValue::Bytes(b) => CanonData::Bytes(b@),
        CanonValue::Bool(b) => CanonData::Bool(b),
        CanonValue::Null => CanonData::Null,
        CanonValue::Array(es) => CanonData::Array(views_of(es)),
        CanonValue::Dict(es) => CanonData::Dict(entry_views_of(es)),
    }
}

/// The element views of a sequence of values.
pub open spec fn views_of(es: Vec<CanonValue>) -> Seq<CanonData>
    decreases es, 0int,
{
    // the range guard keeps the recursion on actual elements, which are
    // structurally smaller than the whole vector
    Seq::new(
        es@.len(),
        |i: int|
            if 0 <= i < es@.len() {
                view_value(es[i])
            } else {
                CanonData::Null
            },
    )
}

/// The entry views of a sequence of key/value pairs.
pub open spec fn entry_views_of(es: Vec<(String, CanonValue)>) -> Seq<(Seq<char>, CanonData)>
    decreases es, 0int,
{
    Seq::new(
        es@.len(),
        |i: int|
            if 0 <= i < es@.len() {
                (es[i].0@, view_value(es[i].1))
            } else {
                (Seq::empty(), CanonData::Null)
            },
    )
}

impl View for CanonValue {
    type V = CanonData;

    open spec fn view(&self) -> CanonData {
        view_value(*self)
    }
}

/// A value the canonical encoder refuses.
#[derive(Debug)]
pub enum EncodeError {
    /// A float that is NaN or an infinity, under the strict policy.
    NonFiniteFloat,
    /// A float whose value is mathematically an integer, under the strict
    /// policy.
    IntegralFloat,
}

impl EncodeError {
    /// A short description of the error.
    pub fn message(&self) -> (r: &'static str)
        ensures
            r@ == if self is NonFiniteFloat {
                "non-finite float under strict policy"@
            } else {
                "integral float under strict policy"@
            },
    {
        match self {
            EncodeError::NonFiniteFloat => "non-finite float under strict policy",
            EncodeError::IntegralFloat => "integral float under strict policy",
        }
    }
}

fn push_bytes(out: &mut Vec<u8>, b: &[u8])
    ensures
        final(out)@ == old(out)@ + b@,
{
    let mut k: usize = 0;
    while k < b.len()
        invariant
            k <= b.len(),
            out@ == old(out)@ + b@.take(k as int),
        decreases b.len() - k,
    {
        out.push(b[k]);
        proof {
            assert(out@ =~= old(out)@ + b@.take(k + 1));
        }
        k += 1;
    }
    proof {
        assert(out@ =~= old(out)@ + b@);
    }
}

fn encode_u64_be(n: u64, out: &mut Vec<u8>)
    ensures
        final(out)@ == old(out)@ + enc_u64(n),
{
    out.push((n / 0x100_0000_0000_0000) as u8);
    out.push(((n / 0x1_0000_0000_0000) % 0x100) as u8);
    out.push(((n / 0x100_0000_0000) % 0x100) as u8);
    out.push(((n / 0x1_0000_0000) % 0x100) as u8);
    out.push(((n / 0x100_0000) % 0x100) as u8);
    out.push(((n / 0x1_0000) % 0x100) as u8);
    out.push(((n / 0x100) % 0x100) as u8);
    out.push((n % 0x100) as u8);
    proof {
        assert(out@ =~= old(out)@ + enc_u64(n));
    }
}

fn encode_head(major: u8, n: u64, out: &mut Vec<u8>)
    requires
        major < 8,
    ensures
        final(out)@ == old(out)@ + enc_head(major, n),
{
    if n < 24 {
        out.push(major * 32 + (n as u8));
        proof {
            assert(out@ =~= old(out)@ + enc_head(major, n));
        }
    } else if n < 0x100 {
        out.push(major * 32 + 24);
        out.push(n as u8);
        proof {
            assert(out@ =~= old(out)@ + enc_head(major, n));
        }
    } else if n < 0x1_0000 {
        out.push(major * 32 + 25);
        out.push((n / 0x100) as u8);
        out.push((n % 0x100) as u8);
        proof {
            assert(out@ =~= old(out)@ + enc_head(major, n));
        }
    } else if n < 0x1_0000_0000 {
        out.push(major * 32 + 26);
        out.push((n / 0x100_0000) as u8);
        out.push(((n / 0x1_0000) % 0x100) as u8);
        out.push(((n / 0x100) % 0x100) as u8);
        out.push((n % 0x100) as u8);
        proof {
            assert(out@ =~= old(out)@ + enc_head(major, n));
        }
    } else {
        out.push(major * 32 + 27);
        encode_u64_be(n, out);
        proof {
            assert(out@ =~= old(out)@ + enc_head(major, n));
        }
    }
}

fn pow2_u64(k: u64) -> (r: u64)
    requires
        k <= 52,
    ensures
        r == pow2(k as nat),
        r >= 1,
{
    let mut r: u64 = 1;
    let mut i: u64 = 0;
    proof {
        vstd::arithmetic::power2::lemma2_to64();
    }
    while i < k
        invariant
            i <= k <= 52,
            r == pow2(i as nat),
            r >= 1,
        decreases k - i,
    {
        proof {
            vstd::arithmetic::power2::lemma_pow2_unfold((i + 1) as nat);
            if ((i + 1) as nat) < 52 {
                vstd::arithmetic::power2::lemma_pow2_strictly_increases((i + 1) as nat, 52);
            }
            vstd::arithmetic::power2::lemma2_to64();
            vstd::arithmetic::power2::lemma2_to64_rest();
        }
        r = r * 2;
        i += 1;
    }
    r
}

/// Whether the strict policy accepts a float with these bits.
pub fn check_strict_float(bits: u64) -> (r: bool)
    ensures
        r == strict_float_ok(bits),
{
    let exp: u64 = (bits / 0x10_0000_0000_0000) % 0x800;
    let frac: u64 = bits % 0x10_0000_0000_0000;
    if exp == 0x7FF {
        false
    } else if exp == 0 {
        frac != 0
    } else if exp >= 1075 {
        false
    } else if exp < 1023 {
        true
    } else {
        let p = pow2_u64(1075 - exp);
        frac % p != 0
    }
}

/// Checks the strict float policy over a whole value: the error names a
/// kind of float the value really contains.
#[verifier::loop_isolation(false)]
pub fn check_strict(v: &CanonValue) -> (r: Result<(), EncodeError>)
    ensures
        r is Ok <==> strict_ok(v@),
        r matches Err(e) ==> if e is NonFiniteFloat {
            exists|bits: u64| contains_float(v@, bits) && !f64_is_finite(bits)
        } else {
            exists|bits: u64|
                contains_float(v@, bits) && f64_is_finite(bits) && f64_is_integral(bits)
        },
    decreases *v,
{
    match v {
        CanonValue::Float(bits) => {
            let exp: u64 = (*bits / 0x10_0000_0000_0000) % 0x800;
            if exp == 0x7FF {
                Err(EncodeError::NonFiniteFloat)
            } else if check_strict_float(*bits) {
                Ok(())
            } else {
                Err(EncodeError::IntegralFloat)
            }
        },
        CanonValue::Array(es) => {
            let mut k: usize = 0;
            while k < es.len()
                invariant
                    k <= es@.len(),
                    forall|i: int| 0 <= i < k ==> strict_ok(#[trigger] view_value(es@[i])),
                decreases es@.len() - k,
            {
                proof {
                    vstd::std_specs::vec::axiom_vec_index_decreases::<CanonValue>(*es, k as int);
                }
                let r = check_strict(&es[k]);
                if let Err(e) = r {
                    proof {
                        assert(view_value(*v) matches CanonData::Array(ds) && !strict_ok(
                            ds[k as int],
                        ));
                        if e is NonFiniteFloat {
                            let bits = choose|bits: u64|
                                contains_float(view_value(es@[k as int]), bits) && !f64_is_finite(
                                    bits,
                                );
                            assert(contains_float(v@, bits));
                        } else {
                            let bits = choose|bits: u64|
                                contains_float(view_value(es@[k as int]), bits) && f64_is_finite(
                                    bits,
                                ) && f64_is_integral(bits);
                            assert(contains_float(v@, bits));
                        }
                    }
                    return Err(e);
                }
                k += 1;
            }
            proof {
                assert forall|i: int| 0 <= i < es@.len() implies strict_ok(
                    #[trigger] (view_value(*v)->Array_0)[i],
                ) by {
                    assert((view_value(*v)->Array_0)[i] == view_value(es@[i]));
                };
            }
            Ok(())
        },
        CanonValue::Dict(es) => {
            let mut k: usize = 0;
            while k < es.len()
                invariant
                    k <= es@.len(),
                    forall|i: int| 0 <= i < k ==> strict_ok(#[trigger] view_value(es@[i].1)),
                decreases es@.len() - k,
            {
                proof {
                    vstd::std_specs::vec::axiom_vec_index_decreases::<(String, CanonValue)>(
                        *es,
                        k as int,
                    );
                }
                let r = check_strict(&es[k].1);
                if let Err(e) = r {
                    proof {
                        assert(view_value(*v) matches CanonData::Dict(ds) && !strict_ok(
                            ds[k as int].1,
                        ));
                        if e is NonFiniteFloat {
                            let bits = choose|bits: u64|
                                contains_float(view_value(es@[k as int].1), bits)
                                    && !f64_is_finite(bits);
                            assert(contains_float(v@, bits));
                        } else {
                            let bits = choose|bits: u64|
                                contains_float(view_value(es@[k as int].1), bits) && f64_is_finite(
                                    bits,
                                ) && f64_is_integral(bits);
                            assert(contains_float(v@, bits));
                        }
                    }
                    return Err(e);
                }
                k += 1;
            }
            proof {
                assert forall|i: int| 0 <= i < es@.len() implies strict_ok(
                    #[trigger] (view_value(*v)->Dict_0)[i].1,
                ) by {
                    assert((view_value(*v)->Dict_0)[i].1 == view_value(es@[i].1));
                };
            }
            Ok(())
        },
        _ => Ok(()),
    }
}

/// Whether `d` contains a float with exactly these bits.
pub open spec fn contains_float(d: CanonData, bits: u64) -> bool
    decreases d,
{
    match d {
        CanonData::Float(b) => b == bits,
        CanonData::Array(es) => exists|i: int|
            0 <= i < es.len() && contains_float(#[trigger] es[i], bits),
        CanonData::Dict(es) => exists|i: int|
            0 <= i < es.len() && contains_float(#[trigger] es[i].1, bits),
        _ => false,
    }
}

/// Appends the canonical encoding of `v` to `out`.
#[verifier::rlimit(50)]
#[verifier::loop_isolation(false)]
fn encode_into(v: &CanonValue, out: &mut Vec<u8>)
    requires
        valid_data(v@),
    ensures
        final(out)@ == old(out)@ + enc_data(v@),
    decreases *v,
{
    match v {
        CanonValue::Int(i) => {
            if *i >= 0 {
                encode_head(0, *i as u64, out);
            } else {
                let n: i128 = -1 - *i;
                encode_head(1, n as u64, out);
            }
        },
        CanonValue::Float(bits) => {
            out.push(0xFB);
            encode_u64_be(*bits, out);
            proof {
                assert(out@ =~= old(out)@ + enc_data(v@));
            }
        },
        CanonValue::Text(s) => {
            let b = s.as_str().as_bytes();
            encode_head(3, b.len() as u64, out);
            push_bytes(out, b);
            proof {
                assert(out@ =~= old(out)@ + enc_data(v@));
            }
        },
        CanonValue::Bytes(bv) => {
            encode_head(2, bv.len() as u64, out);
            push_bytes(out, bv.as_slice());
            proof {
                assert(out@ =~= old(out)@ + enc_data(v@));
            }
        },
        CanonValue::Bool(b) => {
            out.push(if *b {
                0xF5
            } else {
                0xF4
            });
            proof {
                assert(out@ =~= old(out)@ + enc_data(v@));
            }
        },
        CanonValue::Null => {
            out.push(0xF6);
            proof {
                assert(out@ =~= old(out)@ + enc_data(v@));
            }
        },
        CanonValue::Array(es) => {
            let ghost ds = v@->Array_0;
            encode_head(4, es.len() as u64, out);
            let mut k: usize = 0;
            while k < es.len()
                invariant
                    k <= es@.len(),
                    valid_data(v@),
                    ds == v@->Array_0,
                    ds.len() == es@.len(),
                    forall|i: int| 0 <= i < es@.len() ==> ds[i] == view_value(es@[i]),
                    out@ == old(out)@ + enc_head(4, es@.len() as u64) + enc_list_prefix(ds, k as int),
                decreases es@.len() - k,
            {
                proof {
                    assert(valid_data(ds[k as int]));
                }
                proof {
                    vstd::std_specs::vec::axiom_vec_index_decreases::<CanonValue>(*es, k as int);
                }
                encode_into(&es[k], out);
                proof {
                    lemma_enc_list_prefix_step(ds, k as int);
                    assert(out@ =~= old(out)@ + enc_head(4, es@.len() as u64) + enc_list_prefix(
                        ds,
                        k + 1,
                    ));
                }
                k += 1;
            }
            proof {
                lemma_enc_list_prefix_all(ds);
                assert(out@ =~= old(out)@ + enc_data(v@));
            }
        },
        CanonValue::Dict(es) => {
            let ghost ds = v@->Dict_0;
            encode_head(5, es.len() as u64, out);
            let mut k: usize = 0;
            while k < es.len()
                invariant
                    k <= es@.len(),
                    valid_data(v@),
                    ds == v@->Dict_0,
                    ds.len() == es@.len(),
                    forall|i: int|
                        0 <= i < es@.len() ==> ds[i] == (es@[i].0@, view_value(es@[i].1)),
                    out@ == old(out)@ + enc_head(5, es@.len() as u64) + enc_map_prefix(ds, k as int),
                decreases es@.len() - k,
            {
                proof {
                    assert(valid_data(ds[k as int].1));
                    assert(encode_utf8(ds[k as int].0).len() < u64_max_plus_one());
                }
                let b = es[k].0.as_str().as_bytes();
                encode_head(3, b.len() as u64, out);
                push_bytes(out, b);
                proof {
                    vstd::std_specs::vec::axiom_vec_index_decreases::<(String, CanonValue)>(
                        *es,
                        k as int,
                    );
                }
                encode_into(&es[k].1, out);
                proof {
                    lemma_enc_map_prefix_step(ds, k as int);
                    assert(out@ =~= old(out)@ + enc_head(5, es@.len() as u64) + enc_map_prefix(
                        ds,
                        k + 1,
                    ));
                }
                k += 1;
            }
            proof {
                lemma_enc_map_prefix_all(ds);
                assert(out@ =~= old(out)@ + enc_data(v@));
            }
        },
    }
}

/// Concatenated encodings of the first `i` elements.
pub open spec fn enc_list_prefix(es: Seq<CanonData>, i: int) -> Seq<u8>
    decreases es, if i >= 0 { i } else { 0int },
{
    if i <= 0 || i > es.len() {
        Seq::empty()
    } else {
        enc_list_prefix(es, i - 1) + enc_data(es[i - 1])
    }
}

pub open spec fn enc_map_prefix(es: Seq<(Seq<char>, CanonData)>, i: int) -> Seq<u8>
    decreases es, if i >= 0 { i } else { 0int },
{
    if i <= 0 || i > es.len() {
        Seq::empty()
    } else {
        enc_map_prefix(es, i - 1) + enc_text(es[i - 1].0) + enc_data(es[i - 1].1)
    }
}

proof fn lemma_enc_list_prefix_step(es: Seq<CanonData>, k: int)
    requires
        0 <= k < es.len(),
    ensures
        enc_list_prefix(es, k + 1) == enc_list_prefix(es, k) + enc_data(es[k]),
{
}

proof fn lemma_enc_map_prefix_step(es: Seq<(Seq<char>, CanonData)>, k: int)
    requires
        0 <= k < es.len(),
    ensures
        enc_map_prefix(es, k + 1) == enc_map_prefix(es, k) + enc_text(es[k].0) + enc_data(es[k].1),
{
}

/// The two ways of slicing the element concatenation agree.
proof fn lemma_enc_list_split(es: Seq<CanonData>, i: int)
    requires
        0 <= i <= es.len(),
    ensures
        enc_list_prefix(es, i) + enc_list_from(es, i) == enc_list_from(es, 0),
    decreases i,
{
    if i == 0 {
        assert(enc_list_prefix(es, 0) + enc_list_from(es, 0) =~= enc_list_from(es, 0));
    } else {
        lemma_enc_list_split(es, i - 1);
        assert(enc_list_prefix(es, i - 1) + enc_data(es[i - 1]) + enc_list_from(es, i)
            =~= enc_list_prefix(es, i - 1) + (enc_data(es[i - 1]) + enc_list_from(es, i)));
        assert(enc_data(es[i - 1]) + enc_list_from(es, i) == enc_list_from(es, i - 1));
    }
}

proof fn lemma_enc_list_prefix_all(es: Seq<CanonData>)
    ensures
        enc_list_prefix(es, es.len() as int) == enc_list_from(es, 0),
{
    lemma_enc_list_split(es, es.len() as int);
    assert(enc_list_from(es, es.len() as int) =~= Seq::<u8>::empty());
    assert(enc_list_prefix(es, es.len() as int) + Seq::<u8>::empty() =~= enc_list_prefix(
        es,
        es.len() as int,
    ));
}

proof fn lemma_enc_map_split(es: Seq<(Seq<char>, CanonData)>, i: int)
    requires
        0 <= i <= es.len(),
    ensures
        enc_map_prefix(es, i) + enc_map_from(es, i) == enc_map_from(es, 0),
    decreases i,
{
    if i == 0 {
        assert(enc_map_prefix(es, 0) + enc_map_from(es, 0) =~= enc_map_from(es, 0));
    } else {
        lemma_enc_map_split(es, i - 1);
        assert(enc_map_prefix(es, i - 1) + enc_text(es[i - 1].0) + enc_data(es[i - 1].1)
            + enc_map_from(es, i) =~= enc_map_prefix(es, i - 1) + (enc_text(es[i - 1].0) + enc_data(
            es[i - 1].1,
        ) + enc_map_from(es, i)));
        assert(enc_text(es[i - 1].0) + enc_data(es[i - 1].1) + enc_map_from(es, i) =~= enc_map_from(
            es,
            i - 1,
        ));
    }
}

proof fn lemma_enc_map_prefix_all(es: Seq<(Seq<char>, CanonData)>)
    ensures
        enc_map_prefix(es, es.len() as int) == enc_map_from(es, 0),
{
    lemma_enc_map_split(es, es.len() as int);
    assert(enc_map_from(es, es.len() as int) =~= Seq::<u8>::empty());
    assert(enc_map_prefix(es, es.len() as int) + Seq::<u8>::empty() =~= enc_map_prefix(
        es,
        es.len() as int,
    ));
}

/// Canonical encoding under the strict float policy: fails exactly when the
/// value holds a non-finite or mathematically-integral float.
pub fn to_canonical_cbor(v: &CanonValue) -> (r: Result<Vec<u8>, EncodeError>)
    requires
        valid_data(v@),
    ensures
        r is Ok <==> strict_ok(v@),
        r matches Ok(b) ==> b@ == enc_data(v@),
        r matches Err(e) ==> if e is NonFiniteFloat {
            exists|bits: u64| contains_float(v@, bits) && !f64_is_finite(bits)
        } else {
            exists|bits: u64|
                contains_float(v@, bits) && f64_is_finite(bits) && f64_is_integral(bits)
        },
{
    check_strict(v)?;
    let mut out: Vec<u8> = Vec::new();
    encode_into(v, &mut out);
    Ok(out)
}

/// Canonical encoding under the float-permissive policy: total over valid
/// values, and byte-identical to the strict encoding wherever both succeed.
pub fn to_canonical_cbor_allow_floats(v: &CanonValue) -> (r: Result<Vec<u8>, EncodeError>)
    requires
        valid_data(v@),
    ensures
        r matches Ok(b) && b@ == enc_data(v@),
{
    let mut out: Vec<u8> = Vec::new();
    encode_into(v, &mut out);
    Ok(out)
}

/// Compares two keys by their UTF-8 byte sequences.
#[verifier::loop_isolation(false)]
pub fn key_bytes_lt(a: &String, b: &String) -> (r: bool)
    ensures
        r == lex_lt(key_bytes(a@), key_bytes(b@)),
{
    let ab = a.as_str().as_bytes();
    let bb = b.as_str().as_bytes();
    let r = bytes_lt_from(ab, bb, 0);
    proof {
        assert(ab@.skip(0) =~= ab@);
        assert(bb@.skip(0) =~= bb@);
    }
    r
}

fn bytes_lt_from(a: &[u8], b: &[u8], i: usize) -> (r: bool)
    requires
        i <= a@.len(),
        i <= b@.len(),
    ensures
        r == lex_lt(a@.skip(i as int), b@.skip(i as int)),
    decreases a@.len() - i,
{
    broadcast use vstd::seq::group_seq_axioms;

    proof {
        reveal(lex_lt);
    }
    if i >= b.len() {
        false
    } else if i >= a.len() {
        true
    } else if a[i] < b[i] {
        proof {
            assert(a@.skip(i as int)[0] == a@[i as int] && b@.skip(i as int)[0] == b@[i as int]);
        }
        true
    } else if a[i] > b[i] {
        proof {
            assert(a@.skip(i as int)[0] == a@[i as int] && b@.skip(i as int)[0] == b@[i as int]);
        }
        false
    } else {
        let r = bytes_lt_from(a, b, i + 1);
        proof {
            assert(a@.skip(i as int)[0] == a@[i as int] && b@.skip(i as int)[0] == b@[i as int]);
            crate::decode::lemma_skip_skip(a@, i as int, 1);
            crate::decode::lemma_skip_skip(b@, i as int, 1);
        }
        r
    }
}

// ---------------------------------------------------------------------------
// Building canonical maps from pairs in any order.
// ---------------------------------------------------------------------------
/// Inserts a key/value pair into an entry list at its key-byte position,
/// replacing an entry whose key has the same bytes.
pub open spec fn dict_insert(
    es: Seq<(Seq<char>, CanonData)>,
    k: Seq<char>,
    v: CanonData,
) -> Seq<(Seq<char>, CanonData)>
    decreases es.len(),
{
    if es.len() == 0 {
        seq![(k, v)]
    } else if lex_lt(key_bytes(k), key_bytes(es[0].0)) {
        seq![(k, v)] + es
    } else if key_bytes(k) == key_bytes(es[0].0) {
        seq![(k, v)] + es.skip(1)
    } else {
        seq![es[0]] + dict_insert(es.skip(1), k, v)
    }
}

/// What insertion does to a sorted list: the result is sorted, one longer or
/// equal in length, and holds the new pair beside the old entries.
pub proof fn lemma_dict_insert_sorted(es: Seq<(Seq<char>, CanonData)>, k: Seq<char>, v: CanonData)
    requires
        entries_sorted(es),
    ensures
        entries_sorted(dict_insert(es, k, v)),
        es.len() <= dict_insert(es, k, v).len() <= es.len() + 1,
        dict_insert(es, k, v)[0] == (k, v) || (es.len() > 0 && dict_insert(es, k, v)[0] == es[0]),
        forall|j: int|
            0 <= j < dict_insert(es, k, v).len() ==> #[trigger] dict_insert(es, k, v)[j] == (k, v)
                || exists|i: int| 0 <= i < es.len() && dict_insert(es, k, v)[j] == es[i],
    decreases es.len(),
{
    let r = dict_insert(es, k, v);
    let kb = key_bytes(k);
    if es.len() == 0 {
    } else if lex_lt(kb, key_bytes(es[0].0)) {
        assert(entries_sorted(r)) by {
            assert(forall|i: int| 0 <= i < es.len() ==> r[i + 1] == es[i]);
            assert forall|i: int| 0 <= i && i + 1 < r.len() implies lex_lt(
                key_bytes(#[trigger] r[i].0),
                key_bytes(r[i + 1].0),
            ) by {
                if i > 0 {
                    assert(r[i] == es[i - 1] && r[i + 1] == es[i]);
                }
            }
        }
        assert(forall|j: int| 1 <= j < r.len() ==> #[trigger] r[j] == es[j - 1]);
    } else if kb == key_bytes(es[0].0) {
        lemma_key_bytes_injective(k, es[0].0);
        assert(entries_sorted(r)) by {
            assert(forall|i: int| 0 <= i < es.len() - 1 ==> #[trigger] r[i + 1] == es[i + 1]);
            assert forall|i: int| 0 <= i && i + 1 < r.len() implies lex_lt(
                key_bytes(#[trigger] r[i].0),
                key_bytes(r[i + 1].0),
            ) by {
                if i > 0 {
                    assert(r[i] == es[i] && r[i + 1] == es[i + 1]);
                }
            }
        }
        assert(forall|j: int| 1 <= j < r.len() ==> #[trigger] r[j] == es[j]);
    } else {
        lemma_lex_trichotomy_entry(kb, key_bytes(es[0].0));
        let tail = es.skip(1);
        assert(entries_sorted(tail)) by {
            assert(forall|i: int|
                0 <= i && i + 1 < tail.len() ==> #[trigger] tail[i] == es[i + 1] && tail[i + 1]
                    == es[i + 2]);
        }
        lemma_dict_insert_sorted(tail, k, v);
        let rt = dict_insert(tail, k, v);
        assert(forall|j: int| 1 <= j < r.len() ==> #[trigger] r[j] == rt[j - 1]);
        assert(entries_sorted(r)) by {
            assert(lex_lt(key_bytes(es[0].0), key_bytes(r[1].0))) by {
                if rt[0] == (k, v) {
                } else {
                    assert(rt[0] == tail[0] && tail[0] == es[1]);
                }
            }
            assert forall|i: int| 0 <= i && i + 1 < r.len() implies lex_lt(
                key_bytes(#[trigger] r[i].0),
                key_bytes(r[i + 1].0),
            ) by {
                if i > 0 {
                    assert(r[i] == rt[i - 1] && r[i + 1] == rt[i]);
                }
            }
        }
        assert forall|j: int|
            0 <= j < r.len() implies #[trigger] r[j] == (k, v) || exists|i: int|
            0 <= i < es.len() && r[j] == es[i] by {
            if j > 0 && rt[j - 1] != (k, v) {
                let i0 = choose|i0: int| 0 <= i0 < tail.len() && rt[j - 1] == tail[i0];
                assert(r[j] == es[i0 + 1]);
            }
        }
    }
}

proof fn lemma_lex_trichotomy_entry(a: Seq<u8>, b: Seq<u8>)
    requires
        !lex_lt(a, b),
        a != b,
    ensures
        lex_lt(b, a),
{
    if !lex_lt(b, a) {
        lemma_lex_trichotomy(a, b);
    }
}

/// Where the scan of `map_insert` stops determines the inserted shape.
proof fn lemma_dict_insert_at(
    es: Seq<(Seq<char>, CanonData)>,
    k: Seq<char>,
    v: CanonData,
    i: int,
)
    requires
        0 <= i <= es.len(),
        forall|j: int| 0 <= j < i ==> lex_lt(key_bytes(#[trigger] es[j].0), key_bytes(k)),
        i < es.len() ==> !lex_lt(key_bytes(es[i].0), key_bytes(k)),
    ensures
        dict_insert(es, k, v) == if i < es.len() && key_bytes(es[i].0) == key_bytes(k) {
            es.take(i) + seq![(k, v)] + es.skip(i + 1)
        } else {
            es.take(i) + seq![(k, v)] + es.skip(i)
        },
    decreases i,
{
    let kb = key_bytes(k);
    if i == 0 {
        if es.len() == 0 {
            assert(dict_insert(es, k, v) =~= es.take(0) + seq![(k, v)] + es.skip(0));
        } else if key_bytes(es[0].0) == kb {
            assert(dict_insert(es, k, v) =~= es.take(0) + seq![(k, v)] + es.skip(1));
        } else {
            lemma_lex_trichotomy_entry(key_bytes(es[0].0), kb);
            assert(dict_insert(es, k, v) =~= es.take(0) + seq![(k, v)] + es.skip(0));
        }
    } else {
        let tail = es.skip(1);
        assert(forall|j: int| 0 <= j < i - 1 ==> #[trigger] tail[j] == es[j + 1]);
        assert(i - 1 < tail.len() ==> tail[i - 1] == es[i]);
        lemma_dict_insert_at(tail, k, v, i - 1);
        assert(!lex_lt(kb, key_bytes(es[0].0))) by {
            if lex_lt(kb, key_bytes(es[0].0)) {
                lemma_lex_asym(key_bytes(es[0].0), kb);
            }
        }
        assert(kb != key_bytes(es[0].0)) by {
            if kb == key_bytes(es[0].0) {
                lemma_lex_irrefl(kb);
            }
        }
        if i < es.len() && key_bytes(es[i].0) == kb {
            assert(seq![es[0]] + (tail.take(i - 1) + seq![(k, v)] + tail.skip(i)) =~= es.take(i)
                + seq![(k, v)] + es.skip(i + 1));
        } else {
            assert(seq![es[0]] + (tail.take(i - 1) + seq![(k, v)] + tail.skip(i - 1)) =~= es.take(
                i,
            ) + seq![(k, v)] + es.skip(i));
        }
    }
}

/// Inserts a key/value pair into a canonical entry list, keeping the
/// key-byte order: entries below the key keep their place, an entry with the
/// same key bytes is replaced, everything above shifts right. Any insertion
/// order of the same pairs builds the same list.
#[verifier::loop_isolation(false)]
pub fn map_insert(entries: &mut Vec<(String, CanonValue)>, key: String, value: CanonValue)
    ensures
        entry_views_of(*final(entries)) == dict_insert(
            entry_views_of(*old(entries)),
            key@,
            value@,
        ),
{
    broadcast use vstd::std_specs::vec::group_vec_axioms, vstd::seq::group_seq_axioms;

    let ghost es0 = entry_views_of(*old(entries));
    let mut i: usize = 0;
    while i < entries.len() && key_bytes_lt(&entries[i].0, &key)
        invariant
            i <= entries@.len(),
            *entries == *old(entries),
            forall|j: int| 0 <= j < i ==> lex_lt(key_bytes(#[trigger] es0[j].0), key_bytes(key@)),
        decreases entries@.len() - i,
    {
        proof {
            assert(es0[i as int].0 == entries@[i as int].0@);
        }
        i += 1;
    }
    proof {
        if i < entries@.len() {
            assert(es0[i as int].0 == entries@[i as int].0@);
        }
    }
    if i < entries.len() && !key_bytes_lt(&key, &entries[i].0) {
        proof {
            lemma_lex_trichotomy(key_bytes(key@), key_bytes(es0[i as int].0));
            lemma_dict_insert_at(es0, key@, value@, i as int);
        }
        let _ = entries.remove(i);
        entries.insert(i, (key, value));
        proof {
            assert(entry_views_of(*entries) =~= es0.take(i as int) + seq![(key@, value@)]
                + es0.skip(i as int + 1));
        }
    } else {
        proof {
            if i < entries@.len() {
                crate::canon::lemma_lex_neq(key_bytes(key@), key_bytes(es0[i as int].0));
            }
            lemma_dict_insert_at(es0, key@, value@, i as int);
        }
        entries.insert(i, (key, value));
        proof {
            assert(entry_views_of(*entries) =~= es0.take(i as int) + seq![(key@, value@)]
                + es0.skip(i as int));
        }
    }
}

/// Keys below one another have distinct bytes.
pub proof fn lemma_lex_neq(a: Seq<u8>, b: Seq<u8>)
    requires
        lex_lt(a, b) || lex_lt(b, a),
    ensures
        a != b,
{
    lemma_lex_irrefl(a);
}

/// Whether a value is structurally valid: integers in the encodable range
/// and every map's keys strictly ascending. This is the executable test of
/// the encoder's precondition.
#[verifier::loop_isolation(false)]
pub fn check_valid(v: &CanonValue) -> (r: bool)
    ensures
        r == valid_data(v@),
    decreases *v,
{
    match v {
        CanonValue::Int(i) => {
            *i >= -0x1_0000_0000_0000_0000i128 && *i < 0x1_0000_0000_0000_0000i128
        },
        CanonValue::Text(s) => {
            let n = s.as_str().as_bytes().len();
            true
        },
        CanonValue::Bytes(b) => {
            let n = b.len();
            true
        },
        CanonValue::Array(es) => {
            let mut k: usize = 0;
            while k < es.len()
                invariant
                    k <= es@.len(),
                    forall|i: int| 0 <= i < k ==> valid_data(#[trigger] view_value(es@[i])),
                decreases es@.len() - k,
            {
                proof {
                    vstd::std_specs::vec::axiom_vec_index_decreases::<CanonValue>(*es, k as int);
                }
                if !check_valid(&es[k]) {
                    proof {
                        assert(view_value(*v) matches CanonData::Array(ds) && !valid_data(
                            ds[k as int],
                        ));
                    }
                    return false;
                }
                k += 1;
            }
            proof {
                assert forall|i: int| 0 <= i < es@.len() implies valid_data(
                    #[trigger] (view_value(*v)->Array_0)[i],
                ) by {
                    assert((view_value(*v)->Array_0)[i] == view_value(es@[i]));
                }
            }
            true
        },
        CanonValue::Dict(es) => {
            if !crate::decode::entries_sorted_exec(es) {
                return false;
            }
            let mut k: usize = 0;
            while k < es.len()
                invariant
                    k <= es@.len(),
                    forall|i: int|
                        0 <= i < k ==> valid_data(#[trigger] view_value(es@[i].1)) && encode_utf8(
                            es@[i].0@,
                        ).len() < 0x1_0000_0000_0000_0000,
                decreases es@.len() - k,
            {
                proof {
                    vstd::std_specs::vec::axiom_vec_index_decreases::<(String, CanonValue)>(
                        *es,
                        k as int,
                    );
                }
                let n = es[k].0.as_str().as_bytes().len();
                if !check_valid(&es[k].1) {
                    proof {
                        assert(view_value(*v) matches CanonData::Dict(ds) && !valid_data(
                            ds[k as int].1,
                        ));
                    }
                    return false;
                }
                k += 1;
            }
            proof {
                assert forall|i: int| 0 <= i < es@.len() implies valid_data(
                    #[trigger] (view_value(*v)->Dict_0)[i].1,
                ) && encode_utf8((view_value(*v)->Dict_0)[i].0).len()
                    < 0x1_0000_0000_0000_0000 by {
                    assert((view_value(*v)->Dict_0)[i].1 == view_value(es@[i].1));
                    assert((view_value(*v)->Dict_0)[i].0 == es@[i].0@);
                }
            }
            true
        },
        _ => true,
    }
}

/// Entries that make a valid, strict-encodable map: sorted, with valid
/// strict values and encodable key lengths.
pub open spec fn entries_ok(es: Seq<(Seq<char>, CanonData)>) -> bool {
    es.len() < u64_max_plus_one() && entries_sorted(es) && (forall|i: int|
        0 <= i < es.len() ==> valid_data(#[trigger] es[i].1) && strict_ok(es[i].1) && encode_utf8(
            es[i].0,
        ).len() < u64_max_plus_one())
}

/// A valid strict map from good entries.
pub proof fn lemma_entries_ok_dict(es: Seq<(Seq<char>, CanonData)>)
    requires
        entries_ok(es),
    ensures
        valid_data(CanonData::Dict(es)),
        strict_ok(CanonData::Dict(es)),
{
}

/// Inserts a key/value pair while keeping the whole map valid and strict.
#[verifier::loop_isolation(false)]
#[verifier::rlimit(100)]
pub fn map_insert_valid(entries: &mut Vec<(String, CanonValue)>, key: String, value: CanonValue)
    requires
        entries_ok(entry_views_of(*old(entries))),
        valid_data(value@),
        strict_ok(value@),
    ensures
        entry_views_of(*final(entries)) == dict_insert(
            entry_views_of(*old(entries)),
            key@,
            value@,
        ),
        entries_ok(entry_views_of(*final(entries))),
{
    broadcast use vstd::std_specs::vec::group_vec_axioms, vstd::seq::group_seq_axioms;

    let ghost es0 = entry_views_of(*old(entries));
    let ghost kv = key@;
    let ghost vv = value@;
    let kn = key.as_str().as_bytes().len();
    map_insert(entries, key, value);
    let el = entries.len();
    proof {
        lemma_dict_insert_sorted(es0, kv, vv);
        let ghost d = dict_insert(es0, kv, vv);
        assert(d.len() == el);
        assert forall|i: int| 0 <= i < d.len() implies valid_data(#[trigger] d[i].1) && strict_ok(
            d[i].1,
        ) && encode_utf8(d[i].0).len() < u64_max_plus_one() by {
            if d[i] != (kv, vv) {
                let j = choose|j: int| 0 <= j < es0.len() && d[i] == es0[j];
            }
        }
    }
}

/// Entries of a valid map: sorted, with valid values and encodable keys
/// (floats unrestricted).
pub open spec fn entries_valid(es: Seq<(Seq<char>, CanonData)>) -> bool {
    es.len() < u64_max_plus_one() && entries_sorted(es) && (forall|i: int|
        0 <= i < es.len() ==> valid_data(#[trigger] es[i].1) && encode_utf8(es[i].0).len()
            < u64_max_plus_one())
}

/// A valid map from valid entries.
pub proof fn lemma_entries_valid_dict(es: Seq<(Seq<char>, CanonData)>)
    requires
        entries_valid(es),
    ensures
        valid_data(CanonData::Dict(es)),
{
}

/// Inserts a key/value pair while keeping the whole map valid.
#[verifier::loop_isolation(false)]
#[verifier::rlimit(100)]
pub fn map_insert_entry(entries: &mut Vec<(String, CanonValue)>, key: String, value: CanonValue)
    requires
        entries_valid(entry_views_of(*old(entries))),
        valid_data(value@),
    ensures
        entry_views_of(*final(entries)) == dict_insert(
            entry_views_of(*old(entries)),
            key@,
            value@,
        ),
        entries_valid(entry_views_of(*final(entries))),
{
    broadcast use vstd::std_specs::vec::group_vec_axioms, vstd::seq::group_seq_axioms;

    let ghost es0 = entry_views_of(*old(entries));
    let ghost kv = key@;
    let ghost vv = value@;
    let kn = key.as_str().as_bytes().len();
    map_insert(entries, key, value);
    let el = entries.len();
    proof {
        lemma_dict_insert_sorted(es0, kv, vv);
        let ghost d = dict_insert(es0, kv, vv);
        assert(d.len() == el);
        assert forall|i: int| 0 <= i < d.len() implies valid_data(#[trigger] d[i].1) && encode_utf8(
            d[i].0,
        ).len() < u64_max_plus_one() by {
            if d[i] != (kv, vv) {
                let j = choose|j: int| 0 <= j < es0.len() && d[i] == es0[j];
            }
        }
    }
}

/// The canonical array of a list of strings.
pub open spec fn strings_data(ss: Seq<Seq<char>>) -> CanonData {
    CanonData::Array(Seq::new(ss.len(), |i: int| CanonData::Text(ss[i])))
}

/// The character sequences of a vector of strings.
pub open spec fn string_views(ss: Vec<String>) -> Seq<Seq<char>> {
    Seq::new(ss@.len(), |i: int| ss[i]@)
}

/// Converts a list of strings into a canonical array of texts.
#[verifier::loop_isolation(false)]
#[verifier::rlimit(100)]
pub fn strings_to_canon(ss: &Vec<String>) -> (r: CanonValue)
    ensures
        r@ == strings_data(string_views(*ss)),
        valid_data(r@),
        strict_ok(r@),
{
    broadcast use vstd::std_specs::vec::group_vec_axioms, vstd::seq::group_seq_axioms;

    let mut out: Vec<CanonValue> = Vec::new();
    let mut i: usize = 0;
    while i < ss.len()
        invariant
            i <= ss@.len(),
            out@.len() == i,
            forall|j: int|
                0 <= j < i ==> #[trigger] view_value(out@[j]) == CanonData::Text(ss@[j]@)
                    && valid_data(view_value(out@[j])),
        decreases ss@.len() - i,
    {
        let n = ss[i].as_str().as_bytes().len();
        out.push(CanonValue::Text(crate::qa::clone_string(&ss[i])));
        i += 1;
    }
    proof {
        assert forall|j: int| 0 <= j < views_of(out).len() implies #[trigger] views_of(out)[j]
            == CanonData::Text(string_views(*ss)[j]) by {
            assert(views_of(out)[j] == view_value(out@[j]));
        }
        assert(views_of(out) =~= strings_data(string_views(*ss))->Array_0);
        assert forall|j: int| 0 <= j < views_of(out).len() implies valid_data(
            #[trigger] views_of(out)[j],
        ) && strict_ok(views_of(out)[j]) by {
            assert(views_of(out)[j] == view_value(out@[j]));
        }
    }
    let r = CanonValue::Array(out);
    r
}

impl CanonValue {
    /// A deep copy with the same canonical view.
    #[verifier::loop_isolation(false)]
    pub fn clone_value(&self) -> (r: CanonValue)
        ensures
            r@ == self@,
        decreases *self,
    {
        match self {
            CanonValue::Int(i) => CanonValue::Int(*i),
            CanonValue::Float(b) => CanonValue::Float(*b),
            CanonValue::Bool(b) => CanonValue::Bool(*b),
            CanonValue::Null => CanonValue::Null,
            CanonValue::Text(s) => CanonValue::Text(crate::qa::clone_string(s)),
            CanonValue::Bytes(b) => CanonValue::Bytes(vstd::slice::slice_to_vec(b.as_slice())),
            CanonValue::Array(es) => {
                let mut out: Vec<CanonValue> = Vec::new();
                let mut k: usize = 0;
                while k < es.len()
                    invariant
                        k <= es@.len(),
                        out@.len() == k,
                        forall|j: int|
                            0 <= j < k ==> #[trigger] view_value(out@[j]) == view_value(es@[j]),
                    decreases es@.len() - k,
                {
                    proof {
                        vstd::std_specs::vec::axiom_vec_index_decreases::<CanonValue>(
                            *es,
                            k as int,
                        );
                    }
                    let c = es[k].clone_value();
                    out.push(c);
                    k += 1;
                }
                let ghost ov = out@;
                let r = CanonValue::Array(out);
                proof {
                    assert(r->Array_0@ == ov);
                    assert forall|j: int| 0 <= j < views_of(r->Array_0).len() implies (
                    #[trigger] views_of(r->Array_0)[j]) == views_of(self->Array_0)[j] by {
                        assert(views_of(r->Array_0)[j] == view_value(ov[j]));
                        assert(views_of(self->Array_0)[j] == view_value(es@[j]));
                    }
                    assert(views_of(r->Array_0) =~= views_of(self->Array_0));
                }
                r
            },
            CanonValue::Dict(es) => {
                let mut out: Vec<(String, CanonValue)> = Vec::new();
                let mut k: usize = 0;
                while k < es.len()
                    invariant
                        k <= es@.len(),
                        out@.len() == k,
                        forall|j: int|
                            0 <= j < k ==> (#[trigger] out@[j]).0@ == es@[j].0@ && view_value(
                                out@[j].1,
                            ) == view_value(es@[j].1),
                    decreases es@.len() - k,
                {
                    proof {
                        vstd::std_specs::vec::axiom_vec_index_decreases::<(String, CanonValue)>(
                            *es,
                            k as int,
                        );
                    }
                    let c = es[k].1.clone_value();
                    let ks = crate::qa::clone_string(&es[k].0);
                    out.push((ks, c));
                    k += 1;
                }
                let ghost ov = out@;
                let r = CanonValue::Dict(out);
                proof {
                    assert(r->Dict_0@ == ov);
                    assert forall|j: int| 0 <= j < entry_views_of(r->Dict_0).len() implies (
                    #[trigger] entry_views_of(r->Dict_0)[j]) == entry_views_of(self->Dict_0)[j] by {
                        assert(entry_views_of(r->Dict_0)[j] == (ov[j].0@, view_value(ov[j].1)));
                        assert(entry_views_of(self->Dict_0)[j] == (
                            es@[j].0@,
                            view_value(es@[j].1),
                        ));
                    }
                    assert(entry_views_of(r->Dict_0) =~= entry_views_of(self->Dict_0));
                }
                r
            },
        }
    }
}

/// Builds a one-string canonical text with its validity facts.
pub fn text_to_canon(s: &String) -> (r: CanonValue)
    ensures
        r@ == CanonData::Text(s@),
        valid_data(r@),
        strict_ok(r@),
{
    let n = s.as_str().as_bytes().len();
    CanonValue::Text(crate::qa::clone_string(s))
}

} // verus!
