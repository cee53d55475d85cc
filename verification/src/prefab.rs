//! The layers a Prefab projection records for each effective object.
use vstd::prelude::*;

verus! {

/// One Prefab instance an effective object passes through: the file that
/// holds the instance, the instance's file ID, and the GUID and file ID of
/// the object it instantiates.
#[derive(Debug, Clone)]
pub struct Layer {
    pub path: String,
    pub instance_id: String,
    pub source_guid: String,
    pub source_id: String,
}

} // verus!
