//! The patch document: parsed and written by the engine's own JSON codec.
use vstd::prelude::*;
use modular_agent_core::{Error as CoreError, PatchSpec};

verus! {

#[verifier::external_type_specification]
#[verifier::external_body]
pub struct ExPatchSpec(PatchSpec);

#[verifier::external_type_specification]
#[verifier::external_body]
pub struct ExCoreError(CoreError);

/// The text is a JSON document that deserializes as a patch.
pub uninterp spec fn parses_as_patch(s: Seq<char>) -> bool;

/// The pretty-printed JSON text of a patch, or `None` when serializing fails.
pub uninterp spec fn patch_json(spec: PatchSpec) -> Option<Seq<char>>;

/// The JSON text of the patch that a text parses to, as `to_json` writes it.
/// Serialization orders every map (object values are sorted by key, the
/// other maps keep their parse order), so this depends on the text alone.
pub uninterp spec fn reserialized(s: Seq<char>) -> Option<Seq<char>>;

/// Relies on `PatchSpec::from_json`, which is `serde_json::from_str` mapped
/// to the engine's error: it succeeds exactly on the texts that deserialize
/// as a patch, and the patch it gives serializes as the text dictates.
pub assume_specification[ PatchSpec::from_json ](json_str: &str) -> (r: Result<PatchSpec, CoreError>)
    ensures
        r is Ok <==> parses_as_patch(json_str@),
        r matches Ok(p) ==> patch_json(p) == reserialized(json_str@),
;

/// Relies on `PatchSpec::to_json`: `serde_json::to_string_pretty` of the
/// patch, or the serializer's error.
pub assume_specification[ PatchSpec::to_json ](spec: &PatchSpec) -> (r: Result<String, CoreError>)
    ensures
        match patch_json(*spec) {
            Some(t) => r matches Ok(s) && s@ == t,
            None => r is Err,
        },
;

} // verus!
