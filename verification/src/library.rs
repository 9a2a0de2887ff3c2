//! Shareable libraries of materials and construction systems, and their
//! versioned document form.

use vstd::prelude::*;

use crate::element::{id_views, insert_unique_id, valid_id, validate_element_id, ElementId};
use crate::error::ModelError;
use crate::material::Material;
use crate::order::{keys_of, lemma_sorted_arrangement_unique, sort_by_key, sorted_by_key, Keyed};
use crate::system::{system_layers_valid, ConstructionSystem};

verus! {

/// The `format` a library document declares.
pub const LIBRARY_FORMAT: &'static str = "framer.library";

/// The library schema version this build writes and reads.
pub const LIBRARY_SCHEMA_VERSION: u32 = 1;

/// The oldest library schema version this build reads.
const MIN_SUPPORTED_LIBRARY_SCHEMA_VERSION: u32 = 1;

impl Keyed for Material {
    open spec fn key(&self) -> Seq<char> {
        self.id@
    }

    fn key_str(&self) -> (r: &str) {
        self.id.as_str()
    }
}

impl Keyed for ConstructionSystem {
    open spec fn key(&self) -> Seq<char> {
        self.id@
    }

    fn key_str(&self) -> (r: &str) {
        self.id.as_str()
    }
}

/// A library of materials and construction systems, identified by a stable
/// `uid` and a `version_id`.
#[derive(Debug, Clone)]
pub struct Library {
    pub uid: String,
    pub version_id: String,
    pub version: String,
    pub coordinate: String,
    pub materials: Vec<Material>,
    pub systems: Vec<ConstructionSystem>,
}

/// The ids of a list of materials.
pub open spec fn material_ids(ms: Seq<Material>) -> Seq<Seq<char>> {
    ms.map_values(|m: Material| m.id@)
}

/// The ids of a list of systems.
pub open spec fn system_ids(ss: Seq<ConstructionSystem>) -> Seq<Seq<char>> {
    ss.map_values(|s: ConstructionSystem| s.id@)
}

/// The ids are pairwise distinct.
pub open spec fn distinct(ids: Seq<Seq<char>>) -> bool {
    forall|i: int, j: int| 0 <= i < j < ids.len() ==> ids[i] != ids[j]
}

/// The first `i` materials pass: valid ids, none repeated.
pub open spec fn materials_pass(ms: Seq<Material>, i: int) -> bool {
    &&& forall|t: int| 0 <= t < i ==> valid_id((#[trigger] ms[t]).id@)
    &&& distinct(material_ids(ms).subrange(0, i))
}

/// Material `i` is the first to fail, on an invalid id.
pub open spec fn material_id_invalid_first(ms: Seq<Material>, i: int) -> bool {
    0 <= i < ms.len() && materials_pass(ms, i) && !valid_id(ms[i].id@)
}

/// Material `i` is the first to fail, on an id already taken.
pub open spec fn material_id_repeated_first(ms: Seq<Material>, i: int) -> bool {
    0 <= i < ms.len() && materials_pass(ms, i) && valid_id(ms[i].id@) && material_ids(ms).subrange(0, i).contains(ms[i].id@)
}

/// Every material and the first `j` systems pass: valid ids, none repeated
/// across both, valid layers.
pub open spec fn systems_pass(ms: Seq<Material>, ss: Seq<ConstructionSystem>, j: int) -> bool {
    &&& materials_pass(ms, ms.len() as int)
    &&& forall|t: int| 0 <= t < j ==> valid_id((#[trigger] ss[t]).id@) && system_layers_valid(ss[t], material_ids(ms))
    &&& distinct(material_ids(ms) + system_ids(ss).subrange(0, j))
}

/// System `j` is the first to fail, on an invalid id.
pub open spec fn system_id_invalid_first(ms: Seq<Material>, ss: Seq<ConstructionSystem>, j: int) -> bool {
    0 <= j < ss.len() && systems_pass(ms, ss, j) && !valid_id(ss[j].id@)
}

/// System `j` is the first to fail, on an id already taken.
pub open spec fn system_id_repeated_first(ms: Seq<Material>, ss: Seq<ConstructionSystem>, j: int) -> bool {
    0 <= j < ss.len() && systems_pass(ms, ss, j) && valid_id(ss[j].id@) && (material_ids(ms) + system_ids(ss).subrange(0, j))
        .contains(ss[j].id@)
}

/// A catalog checks out: every id is valid and unique among materials and
/// systems, and every system's layers are valid against the materials.
pub open spec fn catalog_valid(ms: Seq<Material>, ss: Seq<ConstructionSystem>) -> bool {
    &&& forall|i: int| 0 <= i < ms.len() ==> valid_id((#[trigger] ms[i]).id@)
    &&& forall|j: int| 0 <= j < ss.len() ==> valid_id((#[trigger] ss[j]).id@) && system_layers_valid(ss[j], material_ids(ms))
    &&& distinct(material_ids(ms) + system_ids(ss))
}

/// Validates material ids, then each system against the materials, with one
/// id namespace for both.
fn validate_catalog(materials: &Vec<Material>, systems: &Vec<ConstructionSystem>) -> (r: Result<(), ModelError>)
    ensures
        r is Ok <==> catalog_valid(materials@, systems@),
        forall|i: int| #[trigger] material_id_invalid_first(materials@, i) ==> (r matches Err(ModelError::InvalidElementId { id })
            && id@ == materials@[i].id@),
        forall|i: int| #[trigger] material_id_repeated_first(materials@, i) ==> (r matches Err(ModelError::DuplicateElementId { id })
            && id@ == materials@[i].id@),
        forall|j: int| #[trigger] system_id_invalid_first(materials@, systems@, j) ==> (r matches Err(ModelError::InvalidElementId { id })
            && id@ == systems@[j].id@),
        forall|j: int| #[trigger] system_id_repeated_first(materials@, systems@, j) ==> (r matches Err(ModelError::DuplicateElementId { id })
            && id@ == systems@[j].id@),
{
    let mut ids: Vec<ElementId> = Vec::new();
    let ghost mids = material_ids(materials@);
    let mut i: usize = 0;
    while i < materials.len()
        invariant
            i <= materials.len(),
            mids == material_ids(materials@),
            id_views(ids@) == mids.subrange(0, i as int),
            forall|t: int| 0 <= t < i ==> valid_id((#[trigger] materials@[t]).id@),
            distinct(mids.subrange(0, i as int)),
            forall|t: int| 0 <= t < i ==> !#[trigger] material_id_invalid_first(materials@, t),
            forall|t: int| 0 <= t < i ==> !#[trigger] material_id_repeated_first(materials@, t),
        decreases materials.len() - i,
    {
        let m = &materials[i];
        let ok = validate_element_id(&m.id);
        if ok.is_err() {
            return ok;
        }
        let ghost before = ids@;
        let inserted = insert_unique_id(&mut ids, &m.id);
        if inserted.is_err() {
            proof {
                let k = choose|k: int| 0 <= k < id_views(before).len() && id_views(before)[k] == m.id@;
                assert(mids[k] == mids[i as int]);
                assert forall|i2: int| i < i2 <= materials@.len() implies !distinct(#[trigger] mids.subrange(0, i2)) by {
                    assert(mids.subrange(0, i2)[k] == mids.subrange(0, i2)[i as int]);
                }
                assert(!distinct(material_ids(materials@) + system_ids(systems@))) by {
                    let all = material_ids(materials@) + system_ids(systems@);
                    assert(all[k] == all[i as int]);
                }
            }
            return inserted;
        }
        proof {
            assert forall|a: int| 0 <= a < i + 1 implies #[trigger] id_views(ids@)[a] == mids[a] by {
                if a < i {
                    assert(id_views(ids@)[a] == id_views(before)[a]);
                }
            }
            assert(id_views(ids@) =~= mids.subrange(0, i + 1));
            assert(!material_id_repeated_first(materials@, i as int));
            assert forall|a: int, b: int| 0 <= a < b < i + 1 implies #[trigger] mids.subrange(0, i + 1)[a] != #[trigger] mids.subrange(0, i + 1)[b] by {
                if b == i {
                    assert(id_views(before)[a] == mids[a]);
                } else {
                    assert(mids.subrange(0, i as int)[a] != mids.subrange(0, i as int)[b]);
                }
            }
        }
        i = i + 1;
    }
    proof {
        assert(mids.subrange(0, i as int) =~= mids);
        assert forall|t: int| !#[trigger] material_id_invalid_first(materials@, t) by {}
        assert forall|t: int| !#[trigger] material_id_repeated_first(materials@, t) by {}
        assert(materials_pass(materials@, materials@.len() as int));
    }
    let mut names: Vec<ElementId> = Vec::new();
    let mut t: usize = 0;
    while t < materials.len()
        invariant
            t <= materials.len(),
            id_views(names@) == mids.subrange(0, t as int),
            mids == material_ids(materials@),
            mids.len() == materials@.len(),
            names@.len() == t,
        decreases materials.len() - t,
    {
        let ghost before = names@;
        names.push(materials[t].id.clone());
        proof {
            assert forall|a: int| 0 <= a < t + 1 implies #[trigger] id_views(names@)[a] == mids[a] by {
                if a < t {
                    assert(id_views(names@)[a] == id_views(before)[a]);
                    assert(id_views(before)[a] == mids.subrange(0, t as int)[a]);
                }
            }
            assert(id_views(names@) =~= mids.subrange(0, t + 1));
        }
        t = t + 1;
    }
    proof {
        assert(mids.subrange(0, t as int) =~= mids);
    }
    let ghost sids = system_ids(systems@);
    let mut j: usize = 0;
    while j < systems.len()
        invariant
            j <= systems.len(),
            mids == material_ids(materials@),
            sids == system_ids(systems@),
            id_views(names@) == mids,
            id_views(ids@) == mids + sids.subrange(0, j as int),
            forall|t: int| 0 <= t < materials.len() ==> valid_id((#[trigger] materials@[t]).id@),
            forall|t: int| 0 <= t < j ==> valid_id((#[trigger] systems@[t]).id@) && system_layers_valid(systems@[t], mids),
            distinct(mids + sids.subrange(0, j as int)),
            forall|t: int| !#[trigger] material_id_invalid_first(materials@, t),
            forall|t: int| !#[trigger] material_id_repeated_first(materials@, t),
            materials_pass(materials@, materials@.len() as int),
            forall|t: int| 0 <= t < j ==> !#[trigger] system_id_invalid_first(materials@, systems@, t),
            forall|t: int| 0 <= t < j ==> !#[trigger] system_id_repeated_first(materials@, systems@, t),
        decreases systems.len() - j,
    {
        let s = &systems[j];
        let ghost before = ids@;
        let checked = s.validate(&names, &mut ids);
        if checked.is_err() {
            proof {
                if valid_id(s.id@) && id_views(before).contains(s.id@) {
                    let k = choose|k: int| 0 <= k < id_views(before).len() && id_views(before)[k] == s.id@;
                    assert forall|j2: int| j < j2 <= systems@.len() implies !distinct(#[trigger] (mids + sids.subrange(0, j2))) by {
                        assert((mids + sids.subrange(0, j2))[k] == (mids + sids.subrange(0, j as int))[k]);
                        assert((mids + sids.subrange(0, j2))[mids.len() + j] == s.id@);
                    }
                }
                if valid_id(s.id@) && system_layers_valid(*s, mids) {
                    let k = choose|k: int| 0 <= k < id_views(before).len() && id_views(before)[k] == s.id@;
                    let all = mids + sids;
                    assert(id_views(before)[k] == (mids + sids.subrange(0, j as int))[k]);
                    assert(all[k] == all[mids.len() + j]);
                }
            }
            return checked;
        }
        proof {
            let cur = mids + sids.subrange(0, j + 1);
            assert forall|a: int| 0 <= a < cur.len() implies #[trigger] id_views(ids@)[a] == cur[a] by {
                if a < cur.len() - 1 {
                    assert(id_views(ids@)[a] == id_views(before)[a]);
                }
            }
            assert(id_views(ids@) =~= cur);
            assert(!system_id_invalid_first(materials@, systems@, j as int));
            assert(!system_id_repeated_first(materials@, systems@, j as int));
            assert forall|a: int, b: int| 0 <= a < b < cur.len() implies #[trigger] cur[a] != #[trigger] cur[b] by {
                if b == cur.len() - 1 {
                    assert(id_views(before)[a] == cur[a]);
                } else {
                    assert((mids + sids.subrange(0, j as int))[a] == cur[a]);
                    assert((mids + sids.subrange(0, j as int))[b] == cur[b]);
                }
            }
        }
        j = j + 1;
    }
    proof {
        assert(sids.subrange(0, j as int) =~= sids);
    }
    Ok(())
}

impl Library {
    /// Validates ids (one namespace for materials and systems) and each system's layers.
    pub fn validate(&self) -> (r: Result<(), ModelError>)
        ensures
            r is Ok <==> catalog_valid(self.materials@, self.systems@),
            forall|i: int| #[trigger] material_id_invalid_first(self.materials@, i) ==> (r matches Err(ModelError::InvalidElementId { id })
                && id@ == self.materials@[i].id@),
            forall|i: int| #[trigger] material_id_repeated_first(self.materials@, i) ==> (r matches Err(ModelError::DuplicateElementId { id })
                && id@ == self.materials@[i].id@),
            forall|j: int| #[trigger] system_id_invalid_first(self.materials@, self.systems@, j) ==> (r matches Err(ModelError::InvalidElementId { id })
                && id@ == self.systems@[j].id@),
            forall|j: int| #[trigger] system_id_repeated_first(self.materials@, self.systems@, j) ==> (r matches Err(ModelError::DuplicateElementId { id })
                && id@ == self.systems@[j].id@),
    {
        validate_catalog(&self.materials, &self.systems)
    }

    /// Orders materials and systems by id; the order of layers inside a system is kept.
    pub fn sort_deterministically(&mut self)
        ensures
            sorted_by_key(final(self).materials@),
            sorted_by_key(final(self).systems@),
            final(self).materials@.to_multiset() == old(self).materials@.to_multiset(),
            final(self).systems@.to_multiset() == old(self).systems@.to_multiset(),
            final(self).uid == old(self).uid,
            final(self).version_id == old(self).version_id,
            final(self).version == old(self).version,
            final(self).coordinate == old(self).coordinate,
    {
        sort_by_key(&mut self.materials);
        sort_by_key(&mut self.systems);
    }

    pub fn into_deterministic(self) -> (r: Library)
        ensures
            sorted_by_key(r.materials@),
            sorted_by_key(r.systems@),
            r.materials@.to_multiset() == self.materials@.to_multiset(),
            r.systems@.to_multiset() == self.systems@.to_multiset(),
            r.uid == self.uid,
            r.version_id == self.version_id,
            r.version == self.version,
            r.coordinate == self.coordinate,
    {
        let mut library = self;
        library.sort_deterministically();
        library
    }
}

/// Why a library document was refused.
#[derive(Debug)]
#[allow(inconsistent_fields)]
pub enum LibraryError {
    InvalidFormat { found: String },
    UnsupportedSchemaVersion { found: u32, supported: u32 },
    Model(ModelError),
}

/// A library as stored on disk: a format tag and a schema version, then the library.
#[derive(Debug)]
pub struct LibraryDocument {
    pub format: String,
    pub schema_version: u32,
    pub uid: String,
    pub version_id: String,
    pub version: String,
    pub coordinate: String,
    pub materials: Vec<Material>,
    pub systems: Vec<ConstructionSystem>,
}

/// What `LibraryDocument::validate` accepts.
pub open spec fn document_valid(d: LibraryDocument) -> bool {
    &&& d.format@ == LIBRARY_FORMAT@
    &&& d.schema_version == LIBRARY_SCHEMA_VERSION
    &&& catalog_valid(d.materials@, d.systems@)
}

impl LibraryDocument {
    /// The canonical document of a library: current format and schema, definitions sorted by id.
    pub fn new(library: Library) -> (r: LibraryDocument)
        ensures
            r.format@ == LIBRARY_FORMAT@,
            r.schema_version == LIBRARY_SCHEMA_VERSION,
            r.uid == library.uid,
            r.version_id == library.version_id,
            r.version == library.version,
            r.coordinate == library.coordinate,
            sorted_by_key(r.materials@),
            sorted_by_key(r.systems@),
            r.materials@.to_multiset() == library.materials@.to_multiset(),
            r.systems@.to_multiset() == library.systems@.to_multiset(),
    {
        let library = library.into_deterministic();
        LibraryDocument {
            format: LIBRARY_FORMAT.to_owned(),
            schema_version: LIBRARY_SCHEMA_VERSION,
            uid: library.uid,
            version_id: library.version_id,
            version: library.version,
            coordinate: library.coordinate,
            materials: library.materials,
            systems: library.systems,
        }
    }

    pub fn into_library(self) -> (r: Library)
        ensures
            r.uid == self.uid,
            r.version_id == self.version_id,
            r.version == self.version,
            r.coordinate == self.coordinate,
            r.materials == self.materials,
            r.systems == self.systems,
    {
        Library {
            uid: self.uid,
            version_id: self.version_id,
            version: self.version,
            coordinate: self.coordinate,
            materials: self.materials,
            systems: self.systems,
        }
    }

    /// Checks the format tag, the schema version, and the library itself.
    pub fn validate(&self) -> (r: Result<(), LibraryError>)
        ensures
            r is Ok <==> document_valid(*self),
            r matches Err(e) ==> if self.format@ != LIBRARY_FORMAT@ {
                e matches LibraryError::InvalidFormat { found } && found@ == self.format@
            } else if self.schema_version != LIBRARY_SCHEMA_VERSION {
                e matches LibraryError::UnsupportedSchemaVersion { found, supported } && found == self.schema_version
                    && supported == LIBRARY_SCHEMA_VERSION
            } else {
                e is Model
            },
            forall|i: int| self.format@ == LIBRARY_FORMAT@ && self.schema_version == LIBRARY_SCHEMA_VERSION && #[trigger] material_id_invalid_first(self.materials@, i) ==> (r matches Err(
                LibraryError::Model(ModelError::InvalidElementId { id }),
            ) && id@ == self.materials@[i].id@),
            forall|i: int| self.format@ == LIBRARY_FORMAT@ && self.schema_version == LIBRARY_SCHEMA_VERSION && #[trigger] material_id_repeated_first(self.materials@, i) ==> (r matches Err(
                LibraryError::Model(ModelError::DuplicateElementId { id }),
            ) && id@ == self.materials@[i].id@),
            forall|j: int| self.format@ == LIBRARY_FORMAT@ && self.schema_version == LIBRARY_SCHEMA_VERSION && #[trigger] system_id_invalid_first(self.materials@, self.systems@, j) ==> (r matches Err(
                LibraryError::Model(ModelError::InvalidElementId { id }),
            ) && id@ == self.systems@[j].id@),
            forall|j: int| self.format@ == LIBRARY_FORMAT@ && self.schema_version == LIBRARY_SCHEMA_VERSION && #[trigger] system_id_repeated_first(self.materials@, self.systems@, j) ==> (r matches Err(
                LibraryError::Model(ModelError::DuplicateElementId { id }),
            ) && id@ == self.systems@[j].id@),
    {
        if !crate::text::str_eq(self.format.as_str(), LIBRARY_FORMAT) {
            return Err(LibraryError::InvalidFormat { found: self.format.clone() });
        }
        if !(MIN_SUPPORTED_LIBRARY_SCHEMA_VERSION <= self.schema_version && self.schema_version <= LIBRARY_SCHEMA_VERSION) {
            return Err(LibraryError::UnsupportedSchemaVersion { found: self.schema_version, supported: LIBRARY_SCHEMA_VERSION });
        }
        match validate_catalog(&self.materials, &self.systems) {
            Ok(()) => Ok(()),
            Err(e) => Err(LibraryError::Model(e)),
        }
    }
}

/// `d` is `library` as a canonical document: the current format and schema
/// version, the library's header, and its materials and systems sorted by id.
pub open spec fn canonical_document(d: LibraryDocument, library: Library) -> bool {
    &&& d.format@ == LIBRARY_FORMAT@
    &&& d.schema_version == LIBRARY_SCHEMA_VERSION
    &&& d.uid == library.uid
    &&& d.version_id == library.version_id
    &&& d.version == library.version
    &&& d.coordinate == library.coordinate
    &&& sorted_by_key(d.materials@)
    &&& sorted_by_key(d.systems@)
    &&& d.materials@.to_multiset() == library.materials@.to_multiset()
    &&& d.systems@.to_multiset() == library.systems@.to_multiset()
}

/// Two libraries that differ only in the order of their definitions are saved
/// as the same document, once the catalog validates.
pub proof fn lemma_saved_document_ignores_definition_order(l1: Library, l2: Library, d1: LibraryDocument, d2: LibraryDocument)
    requires
        canonical_document(d1, l1),
        canonical_document(d2, l2),
        l1.uid == l2.uid,
        l1.version_id == l2.version_id,
        l1.version == l2.version,
        l1.coordinate == l2.coordinate,
        l1.materials@.to_multiset() == l2.materials@.to_multiset(),
        l1.systems@.to_multiset() == l2.systems@.to_multiset(),
        catalog_valid(d1.materials@, d1.systems@),
    ensures
        d1.format@ == d2.format@,
        d1.schema_version == d2.schema_version,
        d1.uid == d2.uid && d1.version_id == d2.version_id && d1.version == d2.version && d1.coordinate == d2.coordinate,
        d1.materials@ == d2.materials@,
        d1.systems@ == d2.systems@,
{
    let ids = material_ids(d1.materials@) + system_ids(d1.systems@);
    assert(keys_of(d1.materials@).no_duplicates()) by {
        assert forall|i: int, j: int| 0 <= i < d1.materials@.len() && 0 <= j < d1.materials@.len() && i != j implies keys_of(
            d1.materials@,
        )[i] != keys_of(d1.materials@)[j] by {
            if i < j {
                assert(ids[i] != ids[j]);
            } else {
                assert(ids[j] != ids[i]);
            }
        }
    }
    assert(keys_of(d1.systems@).no_duplicates()) by {
        let m = d1.materials@.len() as int;
        assert forall|i: int, j: int| 0 <= i < d1.systems@.len() && 0 <= j < d1.systems@.len() && i != j implies keys_of(
            d1.systems@,
        )[i] != keys_of(d1.systems@)[j] by {
            if i < j {
                assert(ids[m + i] != ids[m + j]);
            } else {
                assert(ids[m + j] != ids[m + i]);
            }
        }
    }
    lemma_sorted_arrangement_unique(d1.materials@, d2.materials@);
    lemma_sorted_arrangement_unique(d1.systems@, d2.systems@);
}

/// The validated canonical document of `library`, ready to be written out;
/// the catalog's validation error when its materials and systems do not
/// validate.
pub fn save_library(library: Library) -> (r: Result<LibraryDocument, LibraryError>)
    ensures
        exists|d: LibraryDocument|
            {
                &&& #[trigger] canonical_document(d, library)
                &&& (r is Ok <==> catalog_valid(d.materials@, d.systems@))
                &&& (r matches Ok(x) ==> x == d)
            },
        r matches Ok(d) ==> document_valid(d) && canonical_document(d, library),
        r matches Err(e) ==> e is Model,
{
    let document = LibraryDocument::new(library);
    let ghost d = document;
    assert(canonical_document(d, library));
    match document.validate() {
        Ok(()) => Ok(document),
        Err(e) => Err(e),
    }
}

} // verus!
