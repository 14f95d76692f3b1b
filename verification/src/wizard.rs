//! Wizard planning and delegation primitives: plain data shapes that travel
//! through the canonical encoding layer.

use vstd::prelude::*;

use crate::canon::CanonValue;

verus! {

/// Stable wizard identifier.
pub struct WizardId(pub String);

impl WizardId {
    /// Returns the identifier as a string slice.
    pub fn as_str(&self) -> (r: &str)
        ensures
            r@ == self.0@,
    {
        self.0.as_str()
    }

    /// Builds an identifier from its string form.
    pub fn from_string(value: String) -> (r: WizardId)
        ensures
            r.0@ == value@,
    {
        WizardId(value)
    }
}

/// Target system that will execute wizard actions.
#[derive(Clone, Copy, PartialEq, Eq, Structural)]
pub enum WizardTarget {
    Component,
    Flow,
    Pack,
    Operator,
    Dev,
    Bundle,
}

/// Canonical wizard mode.
#[derive(Clone, Copy, PartialEq, Eq, Structural)]
pub enum WizardMode {
    Default,
    Setup,
    Update,
    Remove,
    Scaffold,
    Build,
    New,
}

/// Wizard plan metadata.
pub struct WizardPlanMeta {
    /// Wizard identifier.
    pub id: WizardId,
    /// Wizard target scope.
    pub target: WizardTarget,
    /// Requested execution mode.
    pub mode: WizardMode,
}

/// Deterministic wizard plan.
pub struct WizardPlan {
    /// Plan metadata and routing identity.
    pub meta: WizardPlanMeta,
    /// Ordered steps to execute.
    pub steps: Vec<WizardStep>,
}

/// A single wizard plan step.
pub enum WizardStep {
    /// Ensure directories exist.
    EnsureDir { paths: Vec<String> },
    /// Write files as path to UTF-8 content, keyed by relative path.
    WriteFiles { files: Vec<(String, String)> },
    /// Bridge to invoke commands by name.
    RunCli { command: String, args: Vec<String> },
    /// Delegate part of the wizard to another target, id and mode.
    Delegate {
        target: WizardTarget,
        id: WizardId,
        mode: WizardMode,
        prefilled_answers: Vec<(String, CanonValue)>,
        output_map: Vec<(String, String)>,
    },
}

} // verus!
