//! Component description payloads: plain records that travel through the
//! canonical encoding layer.

use vstd::prelude::*;

use crate::canon::CanonValue;
use crate::qa::I18nText;
use crate::schema_ir::SchemaIr;

verus! {

/// Component metadata.
pub struct ComponentInfo {
    /// Stable component identifier.
    pub id: String,
    /// Semantic version string.
    pub version: String,
    /// Component role.
    pub role: String,
    /// Optional display name.
    pub display_name: Option<I18nText>,
}

/// Component description payload.
pub struct ComponentDescribe {
    /// Core component metadata.
    pub info: ComponentInfo,
    /// Capabilities provided by the component.
    pub provided_capabilities: Vec<String>,
    /// Capabilities required by the component.
    pub required_capabilities: Vec<String>,
    /// Optional metadata payload, keyed by name.
    pub metadata: Vec<(String, CanonValue)>,
    /// Operation list.
    pub operations: Vec<ComponentOperation>,
    /// Component-level config schema.
    pub config_schema: SchemaIr,
}

/// Component operation entry.
pub struct ComponentOperation {
    /// Operation identifier.
    pub id: String,
    /// Optional display name.
    pub display_name: Option<I18nText>,
    /// Input schema.
    pub input: ComponentRunInput,
    /// Output schema.
    pub output: ComponentRunOutput,
    /// Default values, keyed by name.
    pub defaults: Vec<(String, CanonValue)>,
    /// Redaction rules.
    pub redactions: Vec<RedactionRule>,
    /// Validation constraints, keyed by name.
    pub constraints: Vec<(String, CanonValue)>,
    /// Stable hash computed from the typed schema triple.
    pub schema_hash: String,
}

/// Run input schema wrapper.
pub struct ComponentRunInput {
    /// Input schema.
    pub schema: SchemaIr,
}

/// Run output schema wrapper.
pub struct ComponentRunOutput {
    /// Output schema.
    pub schema: SchemaIr,
}

/// Redaction rule.
pub struct RedactionRule {
    /// JSON Pointer path to the redacted field.
    pub json_pointer: String,
    /// Redaction kind.
    pub kind: RedactionKind,
}

/// Redaction kind.
#[derive(Clone, Copy, Debug, PartialEq, Eq, Structural)]
pub enum RedactionKind {
    /// Never display; treat as secret material.
    Secret,
    /// Display masked.
    Mask,
    /// Remove the field from output and logs.
    Drop,
}

impl RedactionKind {
    /// Canonical string form of the kind.
    pub fn as_str(&self) -> (r: &'static str)
        ensures
            r@ == match self {
                RedactionKind::Secret => "secret"@,
                RedactionKind::Mask => "mask"@,
                RedactionKind::Drop => "drop"@,
            },
    {
        match self {
            RedactionKind::Secret => "secret",
            RedactionKind::Mask => "mask",
            RedactionKind::Drop => "drop",
        }
    }
}

} // verus!
