use greentic_types::canon::{
    check_valid, map_insert, to_canonical_cbor, to_canonical_cbor_allow_floats, CanonValue,
};
use greentic_types::capabilities::{
    encode_capabilities_extension_v1_to_cbor_bytes, CapabilitiesExtensionV1, CapabilityOfferV1,
    CapabilityProviderRefV1,
};
use greentic_types::decode::from_canonical_cbor;
use greentic_types::envelope::Envelope;
use greentic_types::fingerprint::schema_hash;
use greentic_types::schema_ir::{AdditionalProperties, SchemaIr};

fn text(s: &str) -> CanonValue {
    CanonValue::Text(s.to_string())
}

fn map(entries: Vec<(&str, CanonValue)>) -> CanonValue {
    CanonValue::Dict(
        entries
            .into_iter()
            .map(|(k, v)| (k.to_string(), v))
            .collect(),
    )
}

fn string_schema() -> CanonValue {
    map(vec![
        ("min_len", CanonValue::Int(1)),
        ("type", text("string")),
    ])
}

fn object_schema(key: &str) -> CanonValue {
    map(vec![
        ("additional", map(vec![("type", text("forbid"))])),
        ("properties", map(vec![(key, string_schema())])),
        ("required", CanonValue::Array(vec![text(key)])),
        ("type", text("object")),
    ])
}

#[test]
fn encode_is_deterministic() {
    let v = object_schema("prompt");
    let w = object_schema("prompt");
    let a = to_canonical_cbor(&v).expect("encode");
    let b = to_canonical_cbor(&w).expect("encode");
    assert_eq!(a, b);
}

#[test]
fn decode_inverts_encode() {
    let v = map(vec![
        ("flag", CanonValue::Bool(true)),
        ("items", CanonValue::Array(vec![CanonValue::Int(-5), CanonValue::Int(300)])),
        ("name", text("canonical")),
        ("nothing", CanonValue::Null),
        ("payload", CanonValue::Bytes(vec![0, 1, 2, 255])),
    ]);
    let bytes = to_canonical_cbor(&v).expect("encode");
    let decoded = from_canonical_cbor(&bytes).expect("decode");
    let again = to_canonical_cbor(&decoded).expect("re-encode");
    assert_eq!(bytes, again);
    match decoded {
        CanonValue::Dict(entries) => {
            assert_eq!(entries.len(), 5);
            assert_eq!(entries[0].0, "flag");
            assert_eq!(entries[2].0, "name");
        },
        _ => panic!("expected a map"),
    }
}

#[test]
fn minimal_width_integers() {
    assert_eq!(to_canonical_cbor(&CanonValue::Int(0)).unwrap(), vec![0x00]);
    assert_eq!(to_canonical_cbor(&CanonValue::Int(23)).unwrap(), vec![0x17]);
    assert_eq!(to_canonical_cbor(&CanonValue::Int(24)).unwrap(), vec![0x18, 24]);
    assert_eq!(to_canonical_cbor(&CanonValue::Int(256)).unwrap(), vec![0x19, 1, 0]);
    assert_eq!(to_canonical_cbor(&CanonValue::Int(-1)).unwrap(), vec![0x20]);
    assert_eq!(to_canonical_cbor(&CanonValue::Int(-500)).unwrap(), vec![0x39, 1, 0xf3]);
}

#[test]
fn non_minimal_bytes_are_rejected() {
    // 0x18 0x05 encodes 5 with a one-byte argument where the immediate form
    // is required.
    assert!(from_canonical_cbor(&vec![0x18, 0x05]).is_err());
    assert!(from_canonical_cbor(&vec![0x00]).is_ok());
}

#[test]
fn unsorted_map_bytes_are_rejected() {
    // {"b":0,"a":0} with keys out of order.
    let bad = vec![0xa2, 0x61, b'b', 0x00, 0x61, b'a', 0x00];
    assert!(from_canonical_cbor(&bad).is_err());
    let good = vec![0xa2, 0x61, b'a', 0x00, 0x61, b'b', 0x00];
    assert!(from_canonical_cbor(&good).is_ok());
}

#[test]
fn strict_rejects_nan_permissive_accepts() {
    let v = map(vec![("value", CanonValue::Float(f64::NAN.to_bits()))]);
    assert!(to_canonical_cbor(&v).is_err());
    assert!(to_canonical_cbor_allow_floats(&v).is_ok());
}

#[test]
fn strict_rejects_integral_float() {
    let v = CanonValue::Float(2.0f64.to_bits());
    assert!(to_canonical_cbor(&v).is_err());
    let w = CanonValue::Float(2.5f64.to_bits());
    assert!(to_canonical_cbor(&w).is_ok());
}

#[test]
fn fingerprint_matches_fixture() {
    let h = schema_hash(object_schema("prompt"), object_schema("result"), object_schema("api_key"))
        .expect("schema hash");
    assert_eq!(h, "cae2d286a53cac8a41cfc2c7aa886cbc59612cfd72ddb8b2869bfce7fdee2849");
    let again = schema_hash(
        object_schema("prompt"),
        object_schema("result"),
        object_schema("api_key"),
    )
    .expect("schema hash");
    assert_eq!(h, again);
}

#[test]
fn fingerprint_depends_on_field_order() {
    let a = schema_hash(object_schema("prompt"), object_schema("result"), object_schema("api_key"))
        .unwrap();
    let b = schema_hash(object_schema("result"), object_schema("prompt"), object_schema("api_key"))
        .unwrap();
    assert_ne!(a, b);
}

#[test]
fn unknown_fields_do_not_change_known_entries() {
    let base = map(vec![("mode", text("default"))]);
    let extended = map(vec![("mode", text("default")), ("zz_extra", text("later"))]);
    let b1 = to_canonical_cbor(&base).unwrap();
    let b2 = to_canonical_cbor(&extended).unwrap();
    let d1 = from_canonical_cbor(&b1).unwrap();
    let d2 = from_canonical_cbor(&b2).unwrap();
    let get = |v: &CanonValue, key: &str| -> Option<String> {
        if let CanonValue::Dict(es) = v {
            for (k, val) in es {
                if k == key {
                    if let CanonValue::Text(s) = val {
                        return Some(s.clone());
                    }
                }
            }
        }
        None
    };
    assert_eq!(get(&d1, "mode"), get(&d2, "mode"));
    assert_eq!(get(&d2, "mode"), Some("default".to_string()));
}

#[test]
fn envelope_roundtrip() {
    let spec = map(vec![
        ("mode", text("default")),
        ("title", map(vec![("key", text("component.qa.default.title"))])),
    ]);
    let envelope =
        Envelope::new("component", "greentic.component.qa@0.6.0", 6, &spec).expect("envelope");
    assert_eq!(envelope.kind, "component");
    assert_eq!(envelope.schema_id, "greentic.component.qa@0.6.0");
    assert_eq!(envelope.schema_version, 6);
    let decoded = envelope.decode_body().expect("decode envelope");
    if let CanonValue::Dict(es) = &decoded {
        assert_eq!(es[0].0, "mode");
        match &es[0].1 {
            CanonValue::Text(s) => assert_eq!(s, "default"),
            _ => panic!("expected text"),
        }
    } else {
        panic!("expected map body");
    }
    envelope.ensure_canonical().expect("canonical body");
}

#[test]
fn cross_check_with_cbor_reader() {
    let v = map(vec![
        ("count", CanonValue::Int(42)),
        ("name", text("update")),
    ]);
    let bytes = to_canonical_cbor(&v).unwrap();
    let value: ciborium::value::Value =
        ciborium::de::from_reader(bytes.as_slice()).expect("standard reader");
    match value {
        ciborium::value::Value::Map(entries) => {
            assert_eq!(entries.len(), 2);
            assert_eq!(entries[0].0, ciborium::value::Value::Text("count".into()));
            assert_eq!(entries[0].1, ciborium::value::Value::Integer(42.into()));
            assert_eq!(entries[1].1, ciborium::value::Value::Text("update".into()));
        },
        _ => panic!("expected map"),
    }
}

fn string_ir() -> SchemaIr {
    SchemaIr::String { min_len: Some(1), max_len: None, regex: None, format: None }
}

fn object_ir(key: &str) -> SchemaIr {
    SchemaIr::Object {
        properties: vec![(key.to_string(), string_ir())],
        required: vec![key.to_string()],
        additional: AdditionalProperties::Forbid,
    }
}

#[test]
fn typed_schema_hash_matches_fixture() {
    let input = object_ir("prompt");
    let output = object_ir("result");
    let config = object_ir("api_key");
    assert!(input.check_wf() && output.check_wf() && config.check_wf());
    let h = greentic_types::schema_ir::schema_hash(&input, &output, &config)
        .expect("schema hash");
    assert_eq!(h, "ccb387537b2129b8c48b30bd2ff5bf00b8d6462915032ca7dfe057d141ffd5a5");
    let again = greentic_types::schema_ir::schema_hash(&input, &output, &config)
        .expect("schema hash");
    assert_eq!(h, again);
}

#[test]
fn typed_schema_hash_is_property_order_independent() {
    let forward = SchemaIr::Object {
        properties: vec![
            ("alpha".to_string(), string_ir()),
            ("beta".to_string(), string_ir()),
        ],
        required: vec![],
        additional: AdditionalProperties::Allow,
    };
    let backward = SchemaIr::Object {
        properties: vec![
            ("beta".to_string(), string_ir()),
            ("alpha".to_string(), string_ir()),
        ],
        required: vec![],
        additional: AdditionalProperties::Allow,
    };
    let base = object_ir("prompt");
    let a = greentic_types::schema_ir::schema_hash(&forward, &base, &base).unwrap();
    let b = greentic_types::schema_ir::schema_hash(&backward, &base, &base).unwrap();
    assert_eq!(a, b);
}

#[test]
fn map_insert_is_order_independent() {
    let mut first: Vec<(String, CanonValue)> = Vec::new();
    map_insert(&mut first, "b".to_string(), CanonValue::Int(2));
    map_insert(&mut first, "a".to_string(), CanonValue::Int(1));
    let mut second: Vec<(String, CanonValue)> = Vec::new();
    map_insert(&mut second, "a".to_string(), CanonValue::Int(1));
    map_insert(&mut second, "b".to_string(), CanonValue::Int(2));
    let v1 = CanonValue::Dict(first);
    let v2 = CanonValue::Dict(second);
    assert!(check_valid(&v1) && check_valid(&v2));
    assert_eq!(to_canonical_cbor(&v1).unwrap(), to_canonical_cbor(&v2).unwrap());
}

#[test]
fn capabilities_payload_encodes_deterministically() {
    let payload = CapabilitiesExtensionV1::new(vec![CapabilityOfferV1 {
        offer_id: "hooks.pre.01".into(),
        cap_id: "greentic.cap.op_hook.pre".into(),
        version: "v1".into(),
        provider: CapabilityProviderRefV1 {
            component_ref: "policy-hook".into(),
            op: "hook.evaluate".into(),
        },
        scope: None,
        priority: 10,
        requires_setup: false,
        setup: None,
        applies_to: None,
    }]);
    let bytes = encode_capabilities_extension_v1_to_cbor_bytes(&payload);
    let again = encode_capabilities_extension_v1_to_cbor_bytes(&payload);
    assert_eq!(bytes, again);
    let decoded = from_canonical_cbor(&bytes).expect("canonical bytes decode");
    assert_eq!(to_canonical_cbor(&decoded).unwrap(), bytes);
}
