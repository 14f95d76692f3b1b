//! The canonical typed schema representation: a closed, recursive set of
//! schema-shape variants whose canonical encoding must be deterministic.

use vstd::prelude::*;

use crate::canon::{
    dict_insert, entries_valid, lemma_entries_valid_dict, map_insert_entry, strings_data,
    string_views, strings_to_canon, text_to_canon, valid_data, view_value, views_of, CanonData,
    CanonValue,
};
use crate::fingerprint::{hex_of, material_data, sha256_of};

verus! {

broadcast use vstd::std_specs::vec::group_vec_axioms, vstd::seq::group_seq_axioms;

/// Additional properties policy for objects.
pub enum AdditionalProperties {
    /// Allow additional properties.
    Allow,
    /// Forbid additional properties.
    Forbid,
    /// Schema for additional properties.
    Schema(Box<SchemaIr>),
}

/// Canonical schema representation. Floating-point bounds are carried as
/// IEEE-754 binary64 bit patterns, like every float of the canonical value
/// model.
pub enum SchemaIr {
    /// Object schema.
    Object {
        /// Named properties; insertion order does not matter, the canonical
        /// form orders keys by their byte sequence.
        properties: Vec<(String, SchemaIr)>,
        /// Required property names.
        required: Vec<String>,
        /// Additional properties policy.
        additional: AdditionalProperties,
    },
    /// Array schema.
    Array { items: Box<SchemaIr>, min_items: Option<u64>, max_items: Option<u64> },
    /// String schema.
    String {
        min_len: Option<u64>,
        max_len: Option<u64>,
        regex: Option<String>,
        format: Option<String>,
    },
    /// Integer schema.
    Int { min: Option<i64>, max: Option<i64> },
    /// Floating-point schema, bounds given as binary64 bit patterns.
    Float { min: Option<u64>, max: Option<u64> },
    /// Boolean schema.
    Bool,
    /// Null schema.
    Null,
    /// Bytes schema.
    Bytes,
    /// Enumerated values.
    Enum { values: Vec<CanonValue> },
    /// Union schema.
    OneOf { variants: Vec<SchemaIr> },
    /// Reference schema.
    Ref { id: String },
}

/// Well-formed schema: every literal value embedded in an `Enum` is a valid
/// canonical value.
pub open spec fn ir_wf(ir: SchemaIr) -> bool
    decreases ir, 2int,
{
    match ir {
        SchemaIr::Object { properties, required, additional } => ap_wf(additional) && (forall|
            i: int,
        |
            0 <= i < properties@.len() ==> ir_wf(#[trigger] properties[i].1)),
        SchemaIr::Array { items, .. } => ir_wf(*items),
        SchemaIr::Enum { values } => forall|i: int|
            0 <= i < values@.len() ==> valid_data(view_value(#[trigger] values[i])),
        SchemaIr::OneOf { variants } => forall|i: int|
            0 <= i < variants@.len() ==> ir_wf(#[trigger] variants[i]),
        _ => true,
    }
}

pub open spec fn ap_wf(ap: AdditionalProperties) -> bool
    decreases ap, 3int,
{
    match ap {
        AdditionalProperties::Schema(s) => ir_wf(*s),
        _ => true,
    }
}

/// An optional integer as a canonical value: absent bounds encode as null.
pub open spec fn opt_u64_data(v: Option<u64>) -> CanonData {
    match v {
        Some(n) => CanonData::Int(n as int),
        None => CanonData::Null,
    }
}

pub open spec fn opt_i64_data(v: Option<i64>) -> CanonData {
    match v {
        Some(n) => CanonData::Int(n as int),
        None => CanonData::Null,
    }
}

pub open spec fn opt_float_data(v: Option<u64>) -> CanonData {
    match v {
        Some(bits) => CanonData::Float(bits),
        None => CanonData::Null,
    }
}

pub open spec fn opt_text_data(v: Option<String>) -> CanonData {
    match v {
        Some(s) => CanonData::Text(s@),
        None => CanonData::Null,
    }
}

/// The canonical map entries of the property list, inserted one by one: the
/// canonical form is independent of the list's order.
pub open spec fn props_data(ps: Vec<(String, SchemaIr)>, i: int) -> Seq<(Seq<char>, CanonData)>
    decreases ps, ps@.len() - i,
{
    if i < 0 || i >= ps@.len() {
        Seq::empty()
    } else {
        dict_insert(props_data(ps, i + 1), ps[i].0@, ir_data(ps[i].1))
    }
}

/// The canonical value of the additional-properties policy.
pub open spec fn ap_data(ap: AdditionalProperties) -> CanonData
    decreases ap, 1int,
{
    match ap {
        AdditionalProperties::Allow => CanonData::Dict(
            dict_insert(Seq::empty(), "type"@, CanonData::Text("allow"@)),
        ),
        AdditionalProperties::Forbid => CanonData::Dict(
            dict_insert(Seq::empty(), "type"@, CanonData::Text("forbid"@)),
        ),
        AdditionalProperties::Schema(s) => CanonData::Dict(
            dict_insert(
                dict_insert(Seq::empty(), "schema"@, ir_data(*s)),
                "type"@,
                CanonData::Text("schema"@),
            ),
        ),
    }
}

/// The canonical value of a schema: a map tagged under the key `type`.
pub open spec fn ir_data(ir: SchemaIr) -> CanonData
    decreases ir, 2int,
{
    match ir {
        SchemaIr::Object { properties, required, additional } => {
            let m = dict_insert(Seq::empty(), "additional"@, ap_data(additional));
            let m = dict_insert(m, "properties"@, CanonData::Dict(props_data(properties, 0)));
            let m = dict_insert(m, "required"@, strings_data(string_views(required)));
            let m = dict_insert(m, "type"@, CanonData::Text("object"@));
            CanonData::Dict(m)
        },
        SchemaIr::Array { items, min_items, max_items } => {
            let m = dict_insert(Seq::empty(), "items"@, ir_data(*items));
            let m = dict_insert(m, "max_items"@, opt_u64_data(max_items));
            let m = dict_insert(m, "min_items"@, opt_u64_data(min_items));
            let m = dict_insert(m, "type"@, CanonData::Text("array"@));
            CanonData::Dict(m)
        },
        SchemaIr::String { min_len, max_len, regex, format } => {
            let m = dict_insert(Seq::empty(), "format"@, opt_text_data(format));
            let m = dict_insert(m, "max_len"@, opt_u64_data(max_len));
            let m = dict_insert(m, "min_len"@, opt_u64_data(min_len));
            let m = dict_insert(m, "regex"@, opt_text_data(regex));
            let m = dict_insert(m, "type"@, CanonData::Text("string"@));
            CanonData::Dict(m)
        },
        SchemaIr::Int { min, max } => {
            let m = dict_insert(Seq::empty(), "max"@, opt_i64_data(max));
            let m = dict_insert(m, "min"@, opt_i64_data(min));
            let m = dict_insert(m, "type"@, CanonData::Text("int"@));
            CanonData::Dict(m)
        },
        SchemaIr::Float { min, max } => {
            let m = dict_insert(Seq::empty(), "max"@, opt_float_data(max));
            let m = dict_insert(m, "min"@, opt_float_data(min));
            let m = dict_insert(m, "type"@, CanonData::Text("float"@));
            CanonData::Dict(m)
        },
        SchemaIr::Bool => CanonData::Dict(
            dict_insert(Seq::empty(), "type"@, CanonData::Text("bool"@)),
        ),
        SchemaIr::Null => CanonData::Dict(
            dict_insert(Seq::empty(), "type"@, CanonData::Text("null"@)),
        ),
        SchemaIr::Bytes => CanonData::Dict(
            dict_insert(Seq::empty(), "type"@, CanonData::Text("bytes"@)),
        ),
        SchemaIr::Enum { values } => {
            let m = dict_insert(
                Seq::empty(),
                "type"@,
                CanonData::Text("enum"@),
            );
            let m = dict_insert(
                m,
                "values"@,
                CanonData::Array(
                    Seq::new(
                        values@.len(),
                        |i: int|
                            if 0 <= i < values@.len() {
                                view_value(values[i])
                            } else {
                                CanonData::Null
                            },
                    ),
                ),
            );
            CanonData::Dict(m)
        },
        SchemaIr::OneOf { variants } => {
            let m = dict_insert(Seq::empty(), "type"@, CanonData::Text("one_of"@));
            let m = dict_insert(m, "variants"@, CanonData::Array(variants_data(variants, 0)));
            CanonData::Dict(m)
        },
        SchemaIr::Ref { id } => {
            let m = dict_insert(Seq::empty(), "id"@, CanonData::Text(id@));
            let m = dict_insert(m, "type"@, CanonData::Text("ref"@));
            CanonData::Dict(m)
        },
    }
}

pub open spec fn variants_data(vs: Vec<SchemaIr>, i: int) -> Seq<CanonData>
    decreases vs, vs@.len() - i,
{
    if i < 0 || i >= vs@.len() {
        Seq::empty()
    } else {
        seq![ir_data(vs[i])] + variants_data(vs, i + 1)
    }
}

fn opt_u64_to_canon(v: &Option<u64>) -> (r: CanonValue)
    ensures
        r@ == opt_u64_data(*v),
        valid_data(r@),
{
    match v {
        Some(n) => CanonValue::Int(*n as i128),
        None => CanonValue::Null,
    }
}

fn opt_i64_to_canon(v: &Option<i64>) -> (r: CanonValue)
    ensures
        r@ == opt_i64_data(*v),
        valid_data(r@),
{
    match v {
        Some(n) => CanonValue::Int(*n as i128),
        None => CanonValue::Null,
    }
}

fn opt_float_to_canon(v: &Option<u64>) -> (r: CanonValue)
    ensures
        r@ == opt_float_data(*v),
        valid_data(r@),
{
    match v {
        Some(bits) => CanonValue::Float(*bits),
        None => CanonValue::Null,
    }
}

fn opt_text_to_canon(v: &Option<String>) -> (r: CanonValue)
    ensures
        r@ == opt_text_data(*v),
        valid_data(r@),
{
    match v {
        Some(s) => text_to_canon(s),
        None => CanonValue::Null,
    }
}

fn tag_only(tag: &str) -> (r: Vec<(String, CanonValue)>)
    ensures
        crate::canon::entry_views_of(r) == dict_insert(
            Seq::empty(),
            "type"@,
            CanonData::Text(tag@),
        ),
        entries_valid(crate::canon::entry_views_of(r)),
{
    let mut e: Vec<(String, CanonValue)> = Vec::new();
    proof {
        assert(crate::canon::entry_views_of(e) =~= Seq::<(Seq<char>, CanonData)>::empty());
    }
    map_insert_entry(&mut e, "type".to_owned(), text_to_canon(&tag.to_owned()));
    e
}

impl SchemaIr {
    /// The schema as a canonical value: a valid, key-sorted map independent
    /// of the property list's order.
    #[verifier::loop_isolation(false)]
    #[verifier::rlimit(100)]
    pub fn to_canon(&self) -> (r: CanonValue)
        requires
            ir_wf(*self),
        ensures
            r@ == ir_data(*self),
            valid_data(r@),
        decreases *self, 2int,
    {
        match self {
            SchemaIr::Object { properties, required, additional } => {
                let mut props: Vec<(String, CanonValue)> = Vec::new();
                proof {
                    assert(crate::canon::entry_views_of(props) =~= Seq::<
                        (Seq<char>, CanonData),
                    >::empty());
                }
                let n = properties.len();
                let mut k: usize = n;
                while k > 0
                    invariant
                        k <= n,
                        n == properties@.len(),
                        crate::canon::entry_views_of(props) == props_data(*properties, k as int),
                        entries_valid(crate::canon::entry_views_of(props)),
                    decreases k,
                {
                    k = k - 1;
                    proof {
                        vstd::std_specs::vec::axiom_vec_index_decreases::<(String, SchemaIr)>(
                            *properties,
                            k as int,
                        );
                    }
                    let value = properties[k].1.to_canon();
                    map_insert_entry(&mut props, crate::qa::clone_string(&properties[k].0), value);
                }
                let mut e: Vec<(String, CanonValue)> = Vec::new();
                proof {
                    assert(crate::canon::entry_views_of(e) =~= Seq::<
                        (Seq<char>, CanonData),
                    >::empty());
                }
                map_insert_entry(&mut e, "additional".to_owned(), additional.to_canon());
                let pv = CanonValue::Dict(props);
                proof {
                    lemma_entries_valid_dict(pv@->Dict_0);
                }
                map_insert_entry(&mut e, "properties".to_owned(), pv);
                map_insert_entry(&mut e, "required".to_owned(), strings_to_canon(required));
                map_insert_entry(&mut e, "type".to_owned(), text_to_canon(&"object".to_owned()));
                let r = CanonValue::Dict(e);
                proof {
                    lemma_entries_valid_dict(r@->Dict_0);
                }
                r
            },
            SchemaIr::Array { items, min_items, max_items } => {
                let mut e: Vec<(String, CanonValue)> = Vec::new();
                proof {
                    assert(crate::canon::entry_views_of(e) =~= Seq::<
                        (Seq<char>, CanonData),
                    >::empty());
                }
                map_insert_entry(&mut e, "items".to_owned(), items.to_canon());
                map_insert_entry(&mut e, "max_items".to_owned(), opt_u64_to_canon(max_items));
                map_insert_entry(&mut e, "min_items".to_owned(), opt_u64_to_canon(min_items));
                map_insert_entry(&mut e, "type".to_owned(), text_to_canon(&"array".to_owned()));
                let r = CanonValue::Dict(e);
                proof {
                    lemma_entries_valid_dict(r@->Dict_0);
                }
                r
            },
            SchemaIr::String { min_len, max_len, regex, format } => {
                let mut e: Vec<(String, CanonValue)> = Vec::new();
                proof {
                    assert(crate::canon::entry_views_of(e) =~= Seq::<
                        (Seq<char>, CanonData),
                    >::empty());
                }
                map_insert_entry(&mut e, "format".to_owned(), opt_text_to_canon(format));
                map_insert_entry(&mut e, "max_len".to_owned(), opt_u64_to_canon(max_len));
                map_insert_entry(&mut e, "min_len".to_owned(), opt_u64_to_canon(min_len));
                map_insert_entry(&mut e, "regex".to_owned(), opt_text_to_canon(regex));
                map_insert_entry(&mut e, "type".to_owned(), text_to_canon(&"string".to_owned()));
                let r = CanonValue::Dict(e);
                proof {
                    lemma_entries_valid_dict(r@->Dict_0);
                }
                r
            },
            SchemaIr::Int { min, max } => {
                let mut e: Vec<(String, CanonValue)> = Vec::new();
                proof {
                    assert(crate::canon::entry_views_of(e) =~= Seq::<
                        (Seq<char>, CanonData),
                    >::empty());
                }
                map_insert_entry(&mut e, "max".to_owned(), opt_i64_to_canon(max));
                map_insert_entry(&mut e, "min".to_owned(), opt_i64_to_canon(min));
                map_insert_entry(&mut e, "type".to_owned(), text_to_canon(&"int".to_owned()));
                let r = CanonValue::Dict(e);
                proof {
                    lemma_entries_valid_dict(r@->Dict_0);
                }
                r
            },
            SchemaIr::Float { min, max } => {
                let mut e: Vec<(String, CanonValue)> = Vec::new();
                proof {
                    assert(crate::canon::entry_views_of(e) =~= Seq::<
                        (Seq<char>, CanonData),
                    >::empty());
                }
                map_insert_entry(&mut e, "max".to_owned(), opt_float_to_canon(max));
                map_insert_entry(&mut e, "min".to_owned(), opt_float_to_canon(min));
                map_insert_entry(&mut e, "type".to_owned(), text_to_canon(&"float".to_owned()));
                let r = CanonValue::Dict(e);
                proof {
                    lemma_entries_valid_dict(r@->Dict_0);
                }
                r
            },
            SchemaIr::Bool => {
                let r = CanonValue::Dict(tag_only("bool"));
                proof {
                    lemma_entries_valid_dict(r@->Dict_0);
                }
                r
            },
            SchemaIr::Null => {
                let r = CanonValue::Dict(tag_only("null"));
                proof {
                    lemma_entries_valid_dict(r@->Dict_0);
                }
                r
            },
            SchemaIr::Bytes => {
                let r = CanonValue::Dict(tag_only("bytes"));
                proof {
                    lemma_entries_valid_dict(r@->Dict_0);
                }
                r
            },
            SchemaIr::Enum { values } => {
                let mut vs: Vec<CanonValue> = Vec::new();
                let mut k: usize = 0;
                while k < values.len()
                    invariant
                        k <= values@.len(),
                        vs@.len() == k,
                        forall|j: int|
                            0 <= j < k ==> #[trigger] view_value(vs@[j]) == view_value(values@[j]),
                    decreases values@.len() - k,
                {
                    proof {
                        vstd::std_specs::vec::axiom_vec_index_decreases::<CanonValue>(
                            *values,
                            k as int,
                        );
                    }
                    let c = values[k].clone_value();
                    vs.push(c);
                    k += 1;
                }
                let ghost vv = vs@;
                let arr = CanonValue::Array(vs);
                proof {
                    assert(arr->Array_0@ == vv);
                    assert forall|j: int| 0 <= j < views_of(arr->Array_0).len() implies (
                    #[trigger] views_of(arr->Array_0)[j]) == view_value(values@[j]) && valid_data(
                        views_of(arr->Array_0)[j],
                    ) by {
                        assert(views_of(arr->Array_0)[j] == view_value(vv[j]));
                        assert(valid_data(view_value(values[j])));
                    }
                    assert(views_of(arr->Array_0) =~= Seq::new(
                        values@.len(),
                        |i: int|
                            if 0 <= i < values@.len() {
                                view_value(values[i])
                            } else {
                                CanonData::Null
                            },
                    ));
                }
                let mut e = tag_only("enum");
                map_insert_entry(&mut e, "values".to_owned(), arr);
                let r = CanonValue::Dict(e);
                proof {
                    lemma_entries_valid_dict(r@->Dict_0);
                }
                r
            },
            SchemaIr::OneOf { variants } => {
                let mut vs: Vec<CanonValue> = Vec::new();
                let mut k: usize = 0;
                while k < variants.len()
                    invariant
                        k <= variants@.len(),
                        vs@.len() == k,
                        forall|j: int|
                            0 <= j < k ==> #[trigger] view_value(vs@[j]) == ir_data(variants@[j])
                                && valid_data(view_value(vs@[j])),
                    decreases variants@.len() - k,
                {
                    proof {
                        vstd::std_specs::vec::axiom_vec_index_decreases::<SchemaIr>(
                            *variants,
                            k as int,
                        );
                    }
                    let value = variants[k].to_canon();
                    vs.push(value);
                    k += 1;
                }
                let ghost vv = vs@;
                let arr = CanonValue::Array(vs);
                proof {
                    assert(arr->Array_0@ == vv);
                    assert forall|j: int| 0 <= j < views_of(arr->Array_0).len() implies (
                    #[trigger] views_of(arr->Array_0)[j]) == ir_data(variants@[j]) && valid_data(
                        views_of(arr->Array_0)[j],
                    ) by {
                        assert(views_of(arr->Array_0)[j] == view_value(vv[j]));
                    }
                    lemma_variants_data_index(*variants);
                    assert(views_of(arr->Array_0) =~= variants_data(*variants, 0));
                }
                let mut e = tag_only("one_of");
                map_insert_entry(&mut e, "variants".to_owned(), arr);
                let r = CanonValue::Dict(e);
                proof {
                    lemma_entries_valid_dict(r@->Dict_0);
                }
                r
            },
            SchemaIr::Ref { id } => {
                let mut e: Vec<(String, CanonValue)> = Vec::new();
                proof {
                    assert(crate::canon::entry_views_of(e) =~= Seq::<
                        (Seq<char>, CanonData),
                    >::empty());
                }
                map_insert_entry(&mut e, "id".to_owned(), text_to_canon(id));
                map_insert_entry(&mut e, "type".to_owned(), text_to_canon(&"ref".to_owned()));
                let r = CanonValue::Dict(e);
                proof {
                    lemma_entries_valid_dict(r@->Dict_0);
                }
                r
            },
        }
    }
}

/// The variant list's canonical elements, one per variant in order.
proof fn lemma_variants_data_index(vs: Vec<SchemaIr>)
    ensures
        variants_data(vs, 0).len() == vs@.len(),
        forall|j: int|
            0 <= j < vs@.len() ==> #[trigger] variants_data(vs, 0)[j] == ir_data(vs@[j]),
{
    lemma_variants_data_from(vs, 0);
    assert forall|j: int| 0 <= j < vs@.len() implies #[trigger] variants_data(vs, 0)[j] == ir_data(
        vs@[j],
    ) by {
        assert(variants_data(vs, 0)[j - 0] == ir_data(vs@[j]));
    }
}

proof fn lemma_variants_data_from(vs: Vec<SchemaIr>, i: int)
    requires
        0 <= i <= vs@.len(),
    ensures
        variants_data(vs, i).len() == vs@.len() - i,
        forall|j: int|
            i <= j < vs@.len() ==> #[trigger] variants_data(vs, i)[j - i] == ir_data(vs@[j]),
    decreases vs@.len() - i,
{
    if i < vs@.len() {
        lemma_variants_data_from(vs, i + 1);
        assert(variants_data(vs, i) == seq![ir_data(vs[i])] + variants_data(vs, i + 1));
        assert forall|j: int| i <= j < vs@.len() implies #[trigger] variants_data(vs, i)[j - i]
            == ir_data(vs@[j]) by {
            if j > i {
                assert(variants_data(vs, i)[j - i] == variants_data(vs, i + 1)[j - i - 1]);
                assert(variants_data(vs, i + 1)[j - (i + 1)] == ir_data(vs@[j]));
            } else {
                assert(vs[i] == vs@[i]);
            }
        }
    }
}

impl AdditionalProperties {
    /// The policy as a canonical value.
    pub fn to_canon(&self) -> (r: CanonValue)
        requires
            ap_wf(*self),
        ensures
            r@ == ap_data(*self),
            valid_data(r@),
        decreases *self, 3int,
    {
        match self {
            AdditionalProperties::Allow => {
                let r = CanonValue::Dict(tag_only("allow"));
                proof {
                    lemma_entries_valid_dict(r@->Dict_0);
                }
                r
            },
            AdditionalProperties::Forbid => {
                let r = CanonValue::Dict(tag_only("forbid"));
                proof {
                    lemma_entries_valid_dict(r@->Dict_0);
                }
                r
            },
            AdditionalProperties::Schema(s) => {
                let mut e: Vec<(String, CanonValue)> = Vec::new();
                proof {
                    assert(crate::canon::entry_views_of(e) =~= Seq::<
                        (Seq<char>, CanonData),
                    >::empty());
                }
                map_insert_entry(&mut e, "schema".to_owned(), s.to_canon());
                map_insert_entry(&mut e, "type".to_owned(), text_to_canon(&"schema".to_owned()));
                let r = CanonValue::Dict(e);
                proof {
                    lemma_entries_valid_dict(r@->Dict_0);
                }
                r
            },
        }
    }
}

/// Computes the schema fingerprint of a typed schema triple: the canonical
/// forms of input, output and config, aggregated in that fixed field order
/// and digested as the fingerprint layer prescribes.
pub fn schema_hash(input: &SchemaIr, output: &SchemaIr, config: &SchemaIr) -> (r: Result<
    String,
    crate::canon::EncodeError,
>)
    requires
        ir_wf(*input),
        ir_wf(*output),
        ir_wf(*config),
    ensures
        r is Ok <==> crate::canon::strict_ok(
            material_data(ir_data(*input), ir_data(*output), ir_data(*config)),
        ),
        r matches Ok(h) ==> h@ == hex_of(
            sha256_of(
                crate::canon::enc_data(
                    material_data(ir_data(*input), ir_data(*output), ir_data(*config)),
                ),
            ),
        ) && h@.len() == 64,
{
    crate::fingerprint::schema_hash(input.to_canon(), output.to_canon(), config.to_canon())
}

impl SchemaIr {
    /// The executable test of well-formedness: every literal value embedded
    /// in an `Enum` is a valid canonical value.
    #[verifier::loop_isolation(false)]
    pub fn check_wf(&self) -> (r: bool)
        ensures
            r == ir_wf(*self),
        decreases *self, 2int,
    {
        match self {
            SchemaIr::Object { properties, required, additional } => {
                let ap_ok = match additional {
                    AdditionalProperties::Schema(s) => {
                        let b = s.check_wf();
                        proof {
                            assert(b == ap_wf(*additional));
                        }
                        b
                    },
                    _ => {
                        proof {
                            assert(ap_wf(*additional));
                        }
                        true
                    },
                };
                if !ap_ok {
                    return false;
                }
                let mut k: usize = 0;
                while k < properties.len()
                    invariant
                        k <= properties@.len(),
                        forall|j: int| 0 <= j < k ==> ir_wf(#[trigger] properties@[j].1),
                    decreases properties@.len() - k,
                {
                    proof {
                        vstd::std_specs::vec::axiom_vec_index_decreases::<(String, SchemaIr)>(
                            *properties,
                            k as int,
                        );
                    }
                    if !properties[k].1.check_wf() {
                        proof {
                            assert(!ir_wf(properties[k as int].1));
                        }
                        return false;
                    }
                    k += 1;
                }
                proof {
                    assert forall|i: int| 0 <= i < properties@.len() implies ir_wf(
                        #[trigger] properties[i].1,
                    ) by {
                        assert(properties[i].1 == properties@[i].1);
                    }
                }
                true
            },
            SchemaIr::Array { items, .. } => items.check_wf(),
            SchemaIr::Enum { values } => {
                let mut k: usize = 0;
                while k < values.len()
                    invariant
                        k <= values@.len(),
                        forall|j: int| 0 <= j < k ==> valid_data(view_value(#[trigger] values@[j])),
                    decreases values@.len() - k,
                {
                    if !crate::canon::check_valid(&values[k]) {
                        proof {
                            assert(!valid_data(view_value(values[k as int])));
                        }
                        return false;
                    }
                    k += 1;
                }
                proof {
                    assert forall|i: int| 0 <= i < values@.len() implies valid_data(
                        view_value(#[trigger] values[i]),
                    ) by {
                        assert(values[i] == values@[i]);
                    }
                }
                true
            },
            SchemaIr::OneOf { variants } => {
                let mut k: usize = 0;
                while k < variants.len()
                    invariant
                        k <= variants@.len(),
                        forall|j: int| 0 <= j < k ==> ir_wf(#[trigger] variants@[j]),
                    decreases variants@.len() - k,
                {
                    proof {
                        vstd::std_specs::vec::axiom_vec_index_decreases::<SchemaIr>(
                            *variants,
                            k as int,
                        );
                    }
                    if !variants[k].check_wf() {
                        proof {
                            assert(!ir_wf(variants[k as int]));
                        }
                        return false;
                    }
                    k += 1;
                }
                proof {
                    assert forall|i: int| 0 <= i < variants@.len() implies ir_wf(
                        #[trigger] variants[i],
                    ) by {
                        assert(variants[i] == variants@[i]);
                    }
                }
                true
            },
            _ => true,
        }
    }
}

} // verus!
