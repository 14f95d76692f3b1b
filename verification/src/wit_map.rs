//! Static mapping from externally callable functions to the schema each one
//! returns: a lookup table, not a protocol.

use vstd::prelude::*;

verus! {

/// One mapping entry: which export of which interface returns which schema.
#[derive(Clone, Copy)]
pub struct WitReturnSchema {
    /// World name (versioned).
    pub world: &'static str,
    /// Interface name.
    pub interface: &'static str,
    /// Function name.
    pub func: &'static str,
    /// Schema identifier.
    pub schema_id: &'static str,
    /// Schema version.
    pub version: u32,
}

/// The mapping table for the component world, one entry per export.
pub fn wit_returns() -> (r: Vec<WitReturnSchema>)
    ensures
        r@.len() == 7,
        r@[0].interface@ == "component-descriptor"@ && r@[0].func@ == "get-component-info"@
            && r@[0].schema_id@ == "greentic.component.info@0.6.0"@,
        r@[1].interface@ == "component-descriptor"@ && r@[1].func@ == "describe"@
            && r@[1].schema_id@ == "greentic.component.describe@0.6.0"@,
        r@[2].interface@ == "component-qa"@ && r@[2].func@ == "qa-spec"@ && r@[2].schema_id@
            == "greentic.component.qa@0.6.0"@,
        r@[3].interface@ == "component-qa"@ && r@[3].func@ == "apply-answers"@ && r@[3].schema_id@
            == "greentic.component.config@0.6.0"@,
        r@[4].interface@ == "component-schema"@ && r@[4].func@ == "input-schema"@
            && r@[4].schema_id@ == "greentic.component.schema@0.6.0"@,
        r@[5].interface@ == "component-schema"@ && r@[5].func@ == "output-schema"@
            && r@[5].schema_id@ == "greentic.component.schema@0.6.0"@,
        r@[6].interface@ == "component-schema"@ && r@[6].func@ == "config-schema"@
            && r@[6].schema_id@ == "greentic.component.schema@0.6.0"@,
        forall|i: int| 0 <= i < 7 ==> (#[trigger] r@[i]).version == 6 && r@[i].world@
            == "greentic:component@0.6.0"@,
{
    let mut v: Vec<WitReturnSchema> = Vec::new();
    v.push(entry("get-component-info", "component-descriptor", "greentic.component.info@0.6.0"));
    v.push(entry("describe", "component-descriptor", "greentic.component.describe@0.6.0"));
    v.push(entry("qa-spec", "component-qa", "greentic.component.qa@0.6.0"));
    v.push(entry("apply-answers", "component-qa", "greentic.component.config@0.6.0"));
    v.push(entry("input-schema", "component-schema", "greentic.component.schema@0.6.0"));
    v.push(entry("output-schema", "component-schema", "greentic.component.schema@0.6.0"));
    v.push(entry("config-schema", "component-schema", "greentic.component.schema@0.6.0"));
    v
}

fn entry(func: &'static str, interface: &'static str, schema_id: &'static str) -> (r:
    WitReturnSchema)
    ensures
        r.world@ == "greentic:component@0.6.0"@,
        r.interface@ == interface@,
        r.func@ == func@,
        r.schema_id@ == schema_id@,
        r.version == 6,
{
    WitReturnSchema {
        world: "greentic:component@0.6.0",
        interface,
        func,
        schema_id,
        version: 6,
    }
}

} // verus!
