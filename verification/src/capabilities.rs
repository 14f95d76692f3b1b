//! Extension payload for declarative capability offers.

use vstd::prelude::*;

use crate::canon::{
    dict_insert, enc_data, entries_ok, lemma_entries_ok_dict, map_insert_valid, strict_ok,
    strings_data, string_views, strings_to_canon, text_to_canon, to_canonical_cbor, valid_data,
    view_value, views_of, CanonData, CanonValue,
};
use crate::decode::{decode_spec, from_canonical_cbor, DecodeError};

verus! {

/// Pack extension identifier for capability offers.
pub const EXT_CAPABILITIES_V1: &'static str = "greentic.ext.capabilities.v1";

/// Capabilities extension payload.
pub struct CapabilitiesExtensionV1 {
    /// Schema version for the payload; the only supported value is 1.
    pub schema_version: u32,
    /// Capability offers declared by the pack.
    pub offers: Vec<CapabilityOfferV1>,
}

/// Single capability offer in the extension payload.
pub struct CapabilityOfferV1 {
    /// Stable offer identifier used for deterministic tie-breaks.
    pub offer_id: String,
    /// Capability identifier.
    pub cap_id: String,
    /// Offer contract version.
    pub version: String,
    /// Provider operation reference.
    pub provider: CapabilityProviderRefV1,
    /// Optional scope restrictions.
    pub scope: Option<CapabilityScopeV1>,
    /// Deterministic selection priority, ascending.
    pub priority: i32,
    /// Whether the offer needs setup before runtime use.
    pub requires_setup: bool,
    /// Optional setup metadata.
    pub setup: Option<CapabilitySetupV1>,
    /// Optional hook applicability metadata.
    pub applies_to: Option<CapabilityHookAppliesToV1>,
}

/// Provider operation target for a capability offer.
pub struct CapabilityProviderRefV1 {
    /// Component reference inside the pack.
    pub component_ref: String,
    /// Operation exported by the provider component.
    pub op: String,
}

/// Optional scope constraints for a capability offer.
pub struct CapabilityScopeV1 {
    /// Allowed env ids.
    pub envs: Vec<String>,
    /// Allowed tenant ids.
    pub tenants: Vec<String>,
    /// Allowed team ids.
    pub teams: Vec<String>,
}

/// Setup metadata for capability offers requiring setup.
pub struct CapabilitySetupV1 {
    /// Pack-relative QA spec reference.
    pub qa_ref: String,
}

/// Optional applicability constraints for hook capabilities.
pub struct CapabilityHookAppliesToV1 {
    /// Exact operation names.
    pub op_names: Vec<String>,
}

/// Errors of the capabilities extension layer.
pub enum CapabilitiesExtensionError {
    /// Unsupported schema version (holds the version found).
    UnsupportedSchemaVersion(u32),
    /// An offer requires setup but carries none (holds the offer id).
    MissingSetup(String),
    /// An offer's setup reference is empty or blank (holds the offer id).
    InvalidSetupQaRef(String),
}

impl CapabilitiesExtensionError {
    /// A short description of the error.
    pub fn message(&self) -> (r: &'static str)
        ensures
            r@ == if self is UnsupportedSchemaVersion {
                "unsupported capabilities extension schema_version"@
            } else if self is MissingSetup {
                "offer requires setup but setup is missing"@
            } else {
                "offer has empty setup.qa_ref"@
            },
    {
        match self {
            CapabilitiesExtensionError::UnsupportedSchemaVersion(_) => "unsupported capabilities extension schema_version",
            CapabilitiesExtensionError::MissingSetup(_) => "offer requires setup but setup is missing",
            CapabilitiesExtensionError::InvalidSetupQaRef(_) => "offer has empty setup.qa_ref",
        }
    }
}

/// Whether one offer meets the setup invariants.
pub open spec fn offer_ok(o: CapabilityOfferV1) -> bool {
    (o.requires_setup ==> o.setup is Some) && (o.setup is Some
        ==> trimmed_len(o.setup->0.qa_ref@) > 0)
}

/// The error `validate` owes for an offer that breaks a setup rule.
pub open spec fn offer_err_matches(e: CapabilitiesExtensionError, o: CapabilityOfferV1) -> bool {
    if o.requires_setup && o.setup is None {
        e matches CapabilitiesExtensionError::MissingSetup(id) && id@ == o.offer_id@
    } else {
        e matches CapabilitiesExtensionError::InvalidSetupQaRef(id) && id@ == o.offer_id@
    }
}

/// The number of characters left after trimming whitespace at both ends.
pub open spec fn trimmed_len(s: Seq<char>) -> int {
    trim_start(trim_end(s)).len() as int
}

/// A character with the Unicode White_Space property: the set `str::trim`
/// removes at the ends of a string.
pub open spec fn is_space(c: char) -> bool {
    let u = c as u32;
    u == 0x9 || u == 0xA || u == 0xB || u == 0xC || u == 0xD || u == 0x20 || u == 0x85 || u == 0xA0
        || u == 0x1680 || (0x2000 <= u && u <= 0x200A) || u == 0x2028 || u == 0x2029 || u == 0x202F
        || u == 0x205F || u == 0x3000
}

pub open spec fn trim_end(s: Seq<char>) -> Seq<char>
    decreases s.len(),
{
    if s.len() > 0 && is_space(s[s.len() - 1]) {
        trim_end(s.take(s.len() - 1))
    } else {
        s
    }
}

pub open spec fn trim_start(s: Seq<char>) -> Seq<char>
    decreases s.len(),
{
    if s.len() > 0 && is_space(s[0]) {
        trim_start(s.skip(1))
    } else {
        s
    }
}

/// Relies on str::trim: removes exactly the leading and trailing characters
/// with the Unicode White_Space property.
#[verifier::external_body]
fn str_trim(s: &str) -> (r: &str)
    ensures
        r@ == trim_start(trim_end(s@)),
{
    s.trim()
}

impl CapabilitiesExtensionV1 {
    /// Creates a new capabilities payload at the supported schema version.
    pub fn new(offers: Vec<CapabilityOfferV1>) -> (r: CapabilitiesExtensionV1)
        ensures
            r.schema_version == 1,
            r.offers == offers,
    {
        CapabilitiesExtensionV1 { schema_version: 1, offers }
    }

    /// Validates schema and setup invariants: succeeds exactly when the
    /// version is 1 and every offer is well-set-up; otherwise reports the
    /// version, or the first offending offer in declaration order.
    #[verifier::loop_isolation(false)]
    pub fn validate(&self) -> (r: Result<(), CapabilitiesExtensionError>)
        ensures
            r is Ok <==> (self.schema_version == 1 && forall|i: int|
                0 <= i < self.offers@.len() ==> offer_ok(#[trigger] self.offers@[i])),
            self.schema_version != 1 ==> r == Err::<(), CapabilitiesExtensionError>(
                CapabilitiesExtensionError::UnsupportedSchemaVersion(self.schema_version),
            ),
            r matches Err(e) ==> (self.schema_version == 1 ==> exists|i: int|
                0 <= i < self.offers@.len() && !offer_ok(#[trigger] self.offers@[i]) && (forall|
                    j: int,
                |
                    0 <= j < i ==> offer_ok(#[trigger] self.offers@[j])) && offer_err_matches(
                    e,
                    self.offers@[i],
                )),
    {
        broadcast use vstd::std_specs::vec::group_vec_axioms, vstd::seq::group_seq_axioms;

        if self.schema_version != 1 {
            return Err(
                CapabilitiesExtensionError::UnsupportedSchemaVersion(self.schema_version),
            );
        }
        let mut i: usize = 0;
        while i < self.offers.len()
            invariant
                i <= self.offers@.len(),
                forall|j: int| 0 <= j < i ==> offer_ok(#[trigger] self.offers@[j]),
            decreases self.offers@.len() - i,
        {
            let offer = &self.offers[i];
            if offer.requires_setup && offer.setup.is_none() {
                return Err(
                    CapabilitiesExtensionError::MissingSetup(
                        crate::qa::clone_string(&offer.offer_id),
                    ),
                );
            }
            if let Some(setup) = &offer.setup {
                if str_trim(setup.qa_ref.as_str()).is_empty() {
                    return Err(
                        CapabilitiesExtensionError::InvalidSetupQaRef(
                            crate::qa::clone_string(&offer.offer_id),
                        ),
                    );
                }
            }
            i += 1;
        }
        Ok(())
    }
}

// ---------------------------------------------------------------------------
// The canonical shape of the payload.
// ---------------------------------------------------------------------------
/// The canonical map of a provider reference.
pub open spec fn provider_data(p: CapabilityProviderRefV1) -> CanonData {
    CanonData::Dict(
        dict_insert(
            dict_insert(Seq::empty(), "component_ref"@, CanonData::Text(p.component_ref@)),
            "op"@,
            CanonData::Text(p.op@),
        ),
    )
}

/// The canonical map of a scope restriction.
pub open spec fn scope_data(s: CapabilityScopeV1) -> CanonData {
    CanonData::Dict(
        dict_insert(
            dict_insert(
                dict_insert(Seq::empty(), "envs"@, strings_data(string_views(s.envs))),
                "teams"@,
                strings_data(string_views(s.teams)),
            ),
            "tenants"@,
            strings_data(string_views(s.tenants)),
        ),
    )
}

/// The canonical map of one capability offer; absent optional fields are
/// omitted.
pub open spec fn offer_data(o: CapabilityOfferV1) -> CanonData {
    let m = dict_insert(Seq::empty(), "cap_id"@, CanonData::Text(o.cap_id@));
    let m = dict_insert(m, "offer_id"@, CanonData::Text(o.offer_id@));
    let m = dict_insert(m, "priority"@, CanonData::Int(o.priority as int));
    let m = dict_insert(m, "provider"@, provider_data(o.provider));
    let m = dict_insert(m, "requires_setup"@, CanonData::Bool(o.requires_setup));
    let m = dict_insert(m, "version"@, CanonData::Text(o.version@));
    let m = if o.scope is Some {
        dict_insert(m, "scope"@, scope_data(o.scope->0))
    } else {
        m
    };
    let m = if o.setup is Some {
        dict_insert(
            m,
            "setup"@,
            CanonData::Dict(
                dict_insert(Seq::empty(), "qa_ref"@, CanonData::Text(o.setup->0.qa_ref@)),
            ),
        )
    } else {
        m
    };
    let m = if o.applies_to is Some {
        dict_insert(
            m,
            "applies_to"@,
            CanonData::Dict(
                dict_insert(
                    Seq::empty(),
                    "op_names"@,
                    strings_data(string_views(o.applies_to->0.op_names)),
                ),
            ),
        )
    } else {
        m
    };
    CanonData::Dict(m)
}

/// The canonical map of the whole payload.
pub open spec fn caps_data(p: CapabilitiesExtensionV1) -> CanonData {
    CanonData::Dict(
        dict_insert(
            dict_insert(
                Seq::empty(),
                "offers"@,
                CanonData::Array(Seq::new(p.offers@.len(), |i: int| offer_data(p.offers[i]))),
            ),
            "schema_version"@,
            CanonData::Int(p.schema_version as int),
        ),
    )
}

impl CapabilityProviderRefV1 {
    /// The provider reference as a canonical value.
    pub fn to_canon(&self) -> (r: CanonValue)
        ensures
            r@ == provider_data(*self),
            valid_data(r@),
            strict_ok(r@),
    {
        let mut e: Vec<(String, CanonValue)> = Vec::new();
        proof {
            assert(crate::canon::entry_views_of(e) =~= Seq::<(Seq<char>, CanonData)>::empty());
        }
        map_insert_valid(&mut e, "component_ref".to_owned(), text_to_canon(&self.component_ref));
        map_insert_valid(&mut e, "op".to_owned(), text_to_canon(&self.op));
        let r = CanonValue::Dict(e);
        proof {
            lemma_entries_ok_dict(r@->Dict_0);
        }
        r
    }
}

impl CapabilityScopeV1 {
    /// The scope as a canonical value.
    pub fn to_canon(&self) -> (r: CanonValue)
        ensures
            r@ == scope_data(*self),
            valid_data(r@),
            strict_ok(r@),
    {
        let mut e: Vec<(String, CanonValue)> = Vec::new();
        proof {
            assert(crate::canon::entry_views_of(e) =~= Seq::<(Seq<char>, CanonData)>::empty());
        }
        map_insert_valid(&mut e, "envs".to_owned(), strings_to_canon(&self.envs));
        map_insert_valid(&mut e, "teams".to_owned(), strings_to_canon(&self.teams));
        map_insert_valid(&mut e, "tenants".to_owned(), strings_to_canon(&self.tenants));
        let r = CanonValue::Dict(e);
        proof {
            lemma_entries_ok_dict(r@->Dict_0);
        }
        r
    }
}

impl CapabilityOfferV1 {
    /// The offer as a canonical value.
    pub fn to_canon(&self) -> (r: CanonValue)
        ensures
            r@ == offer_data(*self),
            valid_data(r@),
            strict_ok(r@),
    {
        let mut e: Vec<(String, CanonValue)> = Vec::new();
        proof {
            assert(crate::canon::entry_views_of(e) =~= Seq::<(Seq<char>, CanonData)>::empty());
        }
        map_insert_valid(&mut e, "cap_id".to_owned(), text_to_canon(&self.cap_id));
        map_insert_valid(&mut e, "offer_id".to_owned(), text_to_canon(&self.offer_id));
        map_insert_valid(&mut e, "priority".to_owned(), CanonValue::Int(self.priority as i128));
        map_insert_valid(&mut e, "provider".to_owned(), self.provider.to_canon());
        map_insert_valid(&mut e, "requires_setup".to_owned(), CanonValue::Bool(self.requires_setup));
        map_insert_valid(&mut e, "version".to_owned(), text_to_canon(&self.version));
        if let Some(scope) = &self.scope {
            map_insert_valid(&mut e, "scope".to_owned(), scope.to_canon());
        }
        if let Some(setup) = &self.setup {
            let mut se: Vec<(String, CanonValue)> = Vec::new();
            proof {
                assert(crate::canon::entry_views_of(se) =~= Seq::<
                    (Seq<char>, CanonData),
                >::empty());
            }
            map_insert_valid(&mut se, "qa_ref".to_owned(), text_to_canon(&setup.qa_ref));
            let sv = CanonValue::Dict(se);
            proof {
                lemma_entries_ok_dict(sv@->Dict_0);
            }
            map_insert_valid(&mut e, "setup".to_owned(), sv);
        }
        if let Some(applies) = &self.applies_to {
            let mut ae: Vec<(String, CanonValue)> = Vec::new();
            proof {
                assert(crate::canon::entry_views_of(ae) =~= Seq::<
                    (Seq<char>, CanonData),
                >::empty());
            }
            map_insert_valid(&mut ae, "op_names".to_owned(), strings_to_canon(&applies.op_names));
            let av = CanonValue::Dict(ae);
            proof {
                lemma_entries_ok_dict(av@->Dict_0);
            }
            map_insert_valid(&mut e, "applies_to".to_owned(), av);
        }
        let r = CanonValue::Dict(e);
        proof {
            lemma_entries_ok_dict(r@->Dict_0);
        }
        r
    }
}

impl CapabilitiesExtensionV1 {
    /// The payload as a canonical value.
    #[verifier::loop_isolation(false)]
    pub fn to_canon(&self) -> (r: CanonValue)
        ensures
            r@ == caps_data(*self),
            valid_data(r@),
            strict_ok(r@),
    {
        broadcast use vstd::std_specs::vec::group_vec_axioms, vstd::seq::group_seq_axioms;

        let mut offers: Vec<CanonValue> = Vec::new();
        let mut i: usize = 0;
        while i < self.offers.len()
            invariant
                i <= self.offers@.len(),
                offers@.len() == i,
                forall|j: int|
                    0 <= j < i ==> #[trigger] view_value(offers@[j]) == offer_data(
                        self.offers@[j],
                    ) && valid_data(view_value(offers@[j])) && strict_ok(view_value(offers@[j])),
            decreases self.offers@.len() - i,
        {
            offers.push(self.offers[i].to_canon());
            i += 1;
        }
        let ghost ov = offers@;
        let arr = CanonValue::Array(offers);
        proof {
            assert(arr->Array_0@ == ov);
            assert forall|j: int| 0 <= j < views_of(arr->Array_0).len() implies #[trigger] views_of(
                arr->Array_0,
            )[j] == offer_data(self.offers@[j]) && valid_data(views_of(arr->Array_0)[j])
                && strict_ok(views_of(arr->Array_0)[j]) by {
                assert(views_of(arr->Array_0)[j] == view_value(ov[j]));
            }
            assert(views_of(arr->Array_0) =~= Seq::new(
                self.offers@.len(),
                |j: int| offer_data(self.offers[j]),
            ));
        }
        let mut e: Vec<(String, CanonValue)> = Vec::new();
        proof {
            assert(crate::canon::entry_views_of(e) =~= Seq::<(Seq<char>, CanonData)>::empty());
        }
        map_insert_valid(&mut e, "offers".to_owned(), arr);
        map_insert_valid(
            &mut e,
            "schema_version".to_owned(),
            CanonValue::Int(self.schema_version as i128),
        );
        let r = CanonValue::Dict(e);
        proof {
            lemma_entries_ok_dict(r@->Dict_0);
        }
        r
    }
}

/// Serializes a capabilities payload to its canonical bytes.
pub fn encode_capabilities_extension_v1_to_cbor_bytes(p: &CapabilitiesExtensionV1) -> (r: Vec<
    u8,
>)
    ensures
        r@ == enc_data(caps_data(*p)),
{
    let v = p.to_canon();
    match to_canonical_cbor(&v) {
        Ok(b) => b,
        Err(_) => {
            proof {
                assert(false);
            }
            Vec::new()
        },
    }
}

} // verus!
