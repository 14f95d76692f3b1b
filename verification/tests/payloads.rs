use greentic_types::capabilities::{
    CapabilitiesExtensionV1, CapabilityOfferV1, CapabilityProviderRefV1, CapabilitySetupV1,
};
use greentic_types::qa::{ComponentQaSpec, I18nText, QaMode};
use greentic_types::wit_map::wit_returns;
use greentic_types::wizard::WizardId;

fn offer(requires_setup: bool, setup: Option<CapabilitySetupV1>) -> CapabilityOfferV1 {
    CapabilityOfferV1 {
        offer_id: "memory.01".into(),
        cap_id: "greentic.cap.memory.shortterm".into(),
        version: "v1".into(),
        provider: CapabilityProviderRefV1 {
            component_ref: "memory-provider".into(),
            op: "cap.invoke".into(),
        },
        scope: None,
        priority: 0,
        requires_setup,
        setup,
        applies_to: None,
    }
}

#[test]
fn from_str_accepts_upgrade_and_update() {
    assert_eq!(QaMode::from_str("upgrade"), Ok(QaMode::Update));
    assert_eq!(QaMode::from_str("update"), Ok(QaMode::Update));
}

#[test]
fn display_emits_update() {
    assert_eq!(QaMode::Update.as_str(), "update");
}

#[test]
fn from_str_rejects_unknown_mode() {
    assert_eq!(QaMode::from_str("install"), Err("invalid QA mode"));
}

#[test]
fn capabilities_extension_requires_setup_payload() {
    let payload = CapabilitiesExtensionV1::new(vec![offer(true, None)]);
    let err = payload.validate().expect_err("validation should fail");
    assert!(err.message().contains("requires setup"));
}

#[test]
fn capabilities_extension_accepts_valid_offer() {
    let payload = CapabilitiesExtensionV1::new(vec![offer(
        true,
        Some(CapabilitySetupV1 { qa_ref: "qa/hooks/policy-setup.cbor".into() }),
    )]);
    assert!(payload.validate().is_ok());
}

#[test]
fn capabilities_extension_rejects_blank_setup_ref() {
    let payload = CapabilitiesExtensionV1::new(vec![offer(
        true,
        Some(CapabilitySetupV1 { qa_ref: "   ".into() }),
    )]);
    let err = payload.validate().expect_err("validation should fail");
    assert!(err.message().contains("empty setup.qa_ref"));
}

#[test]
fn capabilities_extension_rejects_wrong_version() {
    let mut payload = CapabilitiesExtensionV1::new(vec![]);
    payload.schema_version = 2;
    let err = payload.validate().expect_err("validation should fail");
    assert!(err.message().contains("schema_version"));
}

#[test]
fn wit_mapping_table_covers_component_exports() {
    let table = wit_returns();
    let has = |interface: &str, func: &str, schema_id: &str| {
        table.iter().any(|e| {
            e.interface == interface && e.func == func && e.schema_id == schema_id
        })
    };
    assert!(
        has("component-descriptor", "describe", "greentic.component.describe@0.6.0"),
        "missing describe mapping"
    );
    assert!(
        has("component-descriptor", "get-component-info", "greentic.component.info@0.6.0"),
        "missing component info mapping"
    );
    assert!(
        has("component-qa", "qa-spec", "greentic.component.qa@0.6.0"),
        "missing QA mapping"
    );
    assert!(
        has("component-schema", "input-schema", "greentic.component.schema@0.6.0"),
        "missing input-schema mapping"
    );
    assert!(
        has("component-schema", "output-schema", "greentic.component.schema@0.6.0"),
        "missing output-schema mapping"
    );
    assert!(
        has("component-schema", "config-schema", "greentic.component.schema@0.6.0"),
        "missing config-schema mapping"
    );
}

#[test]
fn qa_i18n_keys_collects_expected_set() {
    let spec = ComponentQaSpec {
        mode: QaMode::Default,
        title: I18nText::new("component.qa.default.title", Some("Default".to_string())),
        description: Some(I18nText::new(
            "component.qa.default.description",
            Some("Defaults".to_string()),
        )),
        questions: vec![],
        defaults: vec![],
    };
    let keys = spec.i18n_keys();
    let expected = vec![
        "component.qa.default.description".to_string(),
        "component.qa.default.title".to_string(),
    ];
    assert_eq!(keys, expected);
}

#[test]
fn wizard_id_round_trips_through_string() {
    let id = WizardId::from_string("pack.setup".to_string());
    assert_eq!(id.as_str(), "pack.setup");
}
