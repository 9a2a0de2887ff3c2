//! The saved project document: a format tag, a schema version and the
//! authored model in deterministic order.

use vstd::prelude::*;

use crate::error::ModelError;
use crate::model::{model_fits, model_sorted, model_valid, no_solved_dimensions, walls_decidable, pack_id_repeats, stack_entry_repeats, BuildingModel};
use crate::text::str_eq;

verus! {

/// The schema version this build reads and writes.
pub const PROJECT_SCHEMA_VERSION: u32 = 10;

/// Why a project document was refused.
#[derive(Debug)]
pub enum ProjectError {
    InvalidFormat { found: String },
    UnsupportedSchemaVersion { found: u32, supported: u32 },
    Model(ModelError),
}

/// A saved project.
pub struct ProjectDocument {
    pub format: String,
    pub schema_version: u32,
    pub authored: BuildingModel,
}

impl ProjectDocument {
    /// The document for `authored`, in deterministic order, under the current
    /// format and schema version.
    pub fn new(authored: BuildingModel) -> (r: ProjectDocument)
        ensures
            r.format@ == "framer.project"@,
            r.schema_version == PROJECT_SCHEMA_VERSION,
            model_sorted(r.authored),
            r.authored.materials@.to_multiset() == authored.materials@.to_multiset(),
            r.authored.systems@.to_multiset() == authored.systems@.to_multiset(),
            r.authored.levels@.to_multiset() == authored.levels@.to_multiset(),
            r.authored.wall_joins@.to_multiset() == authored.wall_joins@.to_multiset(),
            r.authored.rooms@.to_multiset() == authored.rooms@.to_multiset(),
            r.authored.walls@.len() == authored.walls@.len(),
    {
        ProjectDocument {
            format: "framer.project".to_owned(),
            schema_version: PROJECT_SCHEMA_VERSION,
            authored: authored.into_deterministic(),
        }
    }

    /// The authored model the document holds.
    pub fn into_model(self) -> (r: BuildingModel)
        ensures
            r == self.authored,
    {
        self.authored
    }

    /// Refuses a document of another format, then one of another schema
    /// version, then one whose model does not validate.
    pub fn validate(&self) -> (r: Result<(), ProjectError>)
        requires
            model_fits(self.authored),
        ensures
            (self.format@ != "framer.project"@) <==> (r matches Err(ProjectError::InvalidFormat { .. })),
            r matches Err(ProjectError::InvalidFormat { found }) ==> found@ == self.format@,
            (self.format@ == "framer.project"@ && self.schema_version != PROJECT_SCHEMA_VERSION) <==> (r matches Err(
                ProjectError::UnsupportedSchemaVersion { .. },
            )),
            r matches Err(ProjectError::UnsupportedSchemaVersion { found, supported }) ==> found == self.schema_version
                && supported == PROJECT_SCHEMA_VERSION,
            r matches Err(ProjectError::Model(_)) ==> self.format@ == "framer.project"@ && self.schema_version
                == PROJECT_SCHEMA_VERSION,
            r is Ok ==> self.format@ == "framer.project"@ && self.schema_version == PROJECT_SCHEMA_VERSION && model_valid(
                self.authored,
            ),
            self.format@ == "framer.project"@ && self.schema_version == PROJECT_SCHEMA_VERSION && model_valid(self.authored)
                && (no_solved_dimensions(self.authored) || walls_decidable(self.authored)) ==> r is Ok,
            forall|i: int|
                self.format@ == "framer.project"@ && self.schema_version == PROJECT_SCHEMA_VERSION && #[trigger] pack_id_repeats(
                    self.authored,
                    i,
                ) ==> (r matches Err(ProjectError::Model(ModelError::DuplicateElementId { id })) && id@
                    == self.authored.standards_packs@[i].id@),
            forall|i: int|
                self.format@ == "framer.project"@ && self.schema_version == PROJECT_SCHEMA_VERSION && #[trigger] stack_entry_repeats(
                    self.authored,
                    i,
                ) ==> (r matches Err(ProjectError::Model(ModelError::StandardsStackDuplicatePack { pack })) && pack@
                    == self.authored.standards@[i]@),
    {
        if !str_eq(self.format.as_str(), "framer.project") {
            return Err(ProjectError::InvalidFormat { found: self.format.clone() });
        }
        if self.schema_version != PROJECT_SCHEMA_VERSION {
            return Err(ProjectError::UnsupportedSchemaVersion { found: self.schema_version, supported: PROJECT_SCHEMA_VERSION });
        }
        match self.authored.validate() {
            Ok(()) => Ok(()),
            Err(e) => Err(ProjectError::Model(e)),
        }
    }
}

} // verus!
