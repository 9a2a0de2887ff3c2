//! The authored building model: levels, walls and joins, rooms, objects,
//! roofs, ceilings and floor decks, with the material and system catalog and
//! the standards stack; its validation and its structural edits.

use vstd::prelude::*;

use crate::element::{ElementId, id_views, insert_unique_id, lemma_id_views_push, lemma_map_prefix_push, valid_id, validate_element_id, contains_id};
use crate::error::ModelError;
use crate::material::appearance_valid;
use crate::objects::{family_valid, instance_valid, size_positive};
use crate::polygon::{diffs_fit, fits64};
use crate::standards::{pack_valid, starter_pack};
use crate::surfaces::{region_fits, region_valid, roof_geometry_valid, validate_surface_region, SurfaceRegion};
use crate::system::{system_layers_valid, SystemKind};
use crate::wall::{openings_valid, openings_disjoint, driving_outcome, doubles, dim_constructible, dimensions_decidable, wall_basically_valid, on_wall_segment, point_on_segment_fits, wall_valid};
use crate::library::{catalog_valid, Library};
use crate::material::Material;
use crate::objects::{Furnishing, FurnishingInstance, MepInstance, MepObject};
use crate::order::{first_index, key_index, keys_of, lemma_filter_within, lemma_first_index, position_of, sort_by_key, sorted_by_key, Keyed};
use crate::standards::{BracedPanel, BracedWallLine, FramingDefaults, SiteContext, StandardsPack, starter_defaults};
use crate::surfaces::{Ceiling, FloorDeck, RoofOpening, RoofPlane};
use crate::system::ConstructionSystem;
use crate::text::{lemma_seq_lt_transitive, lemma_seq_lt_trichotomy, seq_lt, str_less};
use crate::units::{Length, Point2};
use crate::wall::{
    geometry_changed, same_identity, wall_geometry_sound, RoomUsage, fits, WallEnd, DimensionConstraint, driving_values_fit, placement_fits, placement_length_spec, Level, Opening, OpeningKind, Room, Wall, WallJoin,
    WallJoinKind,
};

verus! {

/// The library version a vendored definition came from.
#[derive(Debug, Clone)]
pub struct LibraryStamp {
    pub uid: String,
    pub version_id: String,
    pub content_hash: String,
    pub coordinate: String,
    pub version: String,
}

/// Stamp `a` comes before stamp `b`: by library uid, then by version id.
pub open spec fn stamp_lt(a: LibraryStamp, b: LibraryStamp) -> bool {
    seq_lt(a.uid@, b.uid@) || (a.uid@ == b.uid@ && seq_lt(a.version_id@, b.version_id@))
}

/// The stamps are in (uid, version id) order.
pub open spec fn stamps_sorted(s: Seq<LibraryStamp>) -> bool {
    forall|a: int, b: int| 0 <= a < b < s.len() ==> !stamp_lt(#[trigger] s[b], #[trigger] s[a])
}

/// Stamp order is asymmetric and transitive, and its negation is transitive.
proof fn lemma_stamp_order(a: LibraryStamp, b: LibraryStamp, c: LibraryStamp)
    ensures
        stamp_lt(a, b) ==> !stamp_lt(b, a),
        stamp_lt(a, b) && stamp_lt(b, c) ==> stamp_lt(a, c),
        !stamp_lt(b, a) && !stamp_lt(c, b) ==> !stamp_lt(c, a),
{
    lemma_seq_lt_trichotomy(a.uid@, b.uid@);
    lemma_seq_lt_trichotomy(b.uid@, c.uid@);
    lemma_seq_lt_trichotomy(a.uid@, c.uid@);
    lemma_seq_lt_trichotomy(a.version_id@, b.version_id@);
    lemma_seq_lt_trichotomy(b.version_id@, c.version_id@);
    lemma_seq_lt_trichotomy(a.version_id@, c.version_id@);
    if seq_lt(a.uid@, b.uid@) && seq_lt(b.uid@, c.uid@) {
        lemma_seq_lt_transitive(a.uid@, b.uid@, c.uid@);
    }
    if seq_lt(a.version_id@, b.version_id@) && seq_lt(b.version_id@, c.version_id@) {
        lemma_seq_lt_transitive(a.version_id@, b.version_id@, c.version_id@);
    }
    if seq_lt(c.uid@, b.uid@) && seq_lt(b.uid@, a.uid@) {
        lemma_seq_lt_transitive(c.uid@, b.uid@, a.uid@);
    }
    if seq_lt(c.version_id@, b.version_id@) && seq_lt(b.version_id@, a.version_id@) {
        lemma_seq_lt_transitive(c.version_id@, b.version_id@, a.version_id@);
    }
}

/// Whether stamp `a` comes before stamp `b`.
fn stamp_less(a: &LibraryStamp, b: &LibraryStamp) -> (r: bool)
    ensures
        r == stamp_lt(*a, *b),
{
    if str_less(a.uid.as_str(), b.uid.as_str()) {
        return true;
    }
    if str_less(b.uid.as_str(), a.uid.as_str()) {
        return false;
    }
    proof {
        lemma_seq_lt_trichotomy(a.uid@, b.uid@);
    }
    str_less(a.version_id.as_str(), b.version_id.as_str())
}

/// Sorts the stamps by (uid, version id), keeping equal ones in their order.
fn sort_stamps(v: &mut Vec<LibraryStamp>)
    ensures
        stamps_sorted(final(v)@),
        final(v)@.to_multiset() == old(v)@.to_multiset(),
{
    let n = v.len();
    if n == 0 {
        return;
    }
    let mut i: usize = 1;
    while i < n
        invariant
            1 <= i <= n,
            v@.len() == n,
            v@.to_multiset() == old(v)@.to_multiset(),
            stamps_sorted(v@.subrange(0, i as int)),
        decreases n - i,
    {
        let ghost before = v@;
        let x = v.remove(i);
        let ghost rest = v@;
        proof {
            assert(rest == before.remove(i as int));
            assert forall|t: int| 0 <= t < i implies rest[t] == before[t] by {}
        }
        let mut j: usize = i;
        while j > 0 && stamp_less(&x, &v[j - 1])
            invariant
                0 <= j <= i,
                i < n,
                v@ == rest,
                rest.len() == n - 1,
                forall|t: int| j <= t < i ==> stamp_lt(x, #[trigger] rest[t]),
            decreases j,
        {
            j = j - 1;
        }
        proof {
            let sp = before.subrange(0, i as int);
            assert forall|a: int, b: int| 0 <= a < b < i implies !stamp_lt(#[trigger] rest[b], #[trigger] rest[a]) by {
                assert(rest[a] == sp[a] && rest[b] == sp[b]);
            }
            if j > 0 {
                assert forall|t: int| 0 <= t < j implies !stamp_lt(x, #[trigger] rest[t]) by {
                    if t < j - 1 {
                        lemma_stamp_order(rest[t], rest[j - 1], x);
                    }
                }
            }
        }
        v.insert(j, x);
        proof {
            let w = v@;
            assert(w == rest.insert(j as int, x));
            assert forall|a: int, b: int| 0 <= a < b < i + 1 implies !stamp_lt(
                #[trigger] w.subrange(0, i + 1)[b],
                #[trigger] w.subrange(0, i + 1)[a],
            ) by {
                let wa = w[a];
                let wb = w[b];
                assert(w.subrange(0, i + 1)[a] == wa && w.subrange(0, i + 1)[b] == wb);
                if b < j {
                    assert(wa == rest[a] && wb == rest[b]);
                } else if b == j {
                    assert(wa == rest[a] && wb == x);
                } else if a == j {
                    assert(wa == x && wb == rest[b - 1]);
                    lemma_stamp_order(x, rest[b - 1], x);
                } else if a < j {
                    assert(wa == rest[a] && wb == rest[b - 1]);
                    lemma_stamp_order(x, rest[b - 1], x);
                    lemma_stamp_order(rest[a], x, rest[b - 1]);
                } else {
                    assert(wa == rest[a - 1] && wb == rest[b - 1]);
                }
            }
            broadcast use vstd::seq_lib::group_to_multiset_ensures;
            assert(before.to_multiset() == rest.to_multiset().insert(x));
        }
        i = i + 1;
    }
    proof {
        assert(v@.subrange(0, n as int) =~= v@);
    }
}

/// The whole authored model.
#[derive(Debug, Clone)]
pub struct BuildingModel {
    pub site: SiteContext,
    pub standards: Vec<ElementId>,
    pub standards_packs: Vec<StandardsPack>,
    pub libraries: Vec<LibraryStamp>,
    pub materials: Vec<Material>,
    pub systems: Vec<ConstructionSystem>,
    pub furnishings: Vec<Furnishing>,
    pub mep_objects: Vec<MepObject>,
    pub levels: Vec<Level>,
    pub walls: Vec<Wall>,
    pub wall_joins: Vec<WallJoin>,
    pub rooms: Vec<Room>,
    pub furnishing_instances: Vec<FurnishingInstance>,
    pub mep_instances: Vec<MepInstance>,
    pub roof_planes: Vec<RoofPlane>,
    pub ceilings: Vec<Ceiling>,
    pub floor_decks: Vec<FloorDeck>,
    pub braced_wall_lines: Vec<BracedWallLine>,
}

/// The position of the first pack with id `id`, or -1.
pub open spec fn pack_index(packs: Seq<StandardsPack>, id: Seq<char>) -> int {
    first_index(packs, |p: StandardsPack| p.id@ == id)
}

pub(crate) fn find_pack(packs: &Vec<StandardsPack>, id: &ElementId) -> (r: Option<usize>)
    ensures
        r matches Some(i) ==> pack_index(packs@, id@) == i as int && i < packs@.len(),
        r is None ==> pack_index(packs@, id@) == -1,
{
    let ghost p = |q: StandardsPack| q.id@ == id@;
    let mut i: usize = 0;
    while i < packs.len()
        invariant
            i <= packs.len(),
            p == (|q: StandardsPack| q.id@ == id@),
            forall|j: int| 0 <= j < i ==> !p(#[trigger] packs@[j]),
        decreases packs.len() - i,
    {
        if packs[i].id == *id {
            proof {
                lemma_first_index(packs@, p, i as int);
            }
            return Some(i);
        }
        i = i + 1;
    }
    proof {
        lemma_first_index(packs@, p, i as int);
    }
    None
}

/// The defaults of the last pack in the stack that resolves, if any.
pub open spec fn stack_defaults(stack: Seq<ElementId>, packs: Seq<StandardsPack>) -> Option<FramingDefaults>
    decreases stack.len(),
{
    if stack.len() == 0 {
        None
    } else {
        let i = pack_index(packs, stack.last()@);
        if i >= 0 {
            Some(packs[i].tables.defaults)
        } else {
            stack_defaults(stack.drop_last(), packs)
        }
    }
}

/// The position of the first system with id `id`, or -1.
pub open spec fn system_index(systems: Seq<ConstructionSystem>, id: Seq<char>) -> int {
    first_index(systems, |s: ConstructionSystem| s.id@ == id)
}

/// The position of the first material with id `id`, or -1.
pub open spec fn material_index(materials: Seq<Material>, id: Seq<char>) -> int {
    first_index(materials, |m: Material| m.id@ == id)
}

/// Whether some wall has id `id`.
pub open spec fn has_wall(walls: Seq<Wall>, id: Seq<char>) -> bool {
    exists|i: int| 0 <= i < walls.len() && walls[i].id@ == id
}

/// `p` moved to `new` when it is `old`.
pub open spec fn moved(p: Point2, old: Point2, new: Point2) -> Point2 {
    if p == old {
        new
    } else {
        p
    }
}

/// A wall after its endpoints at `old` moved to `new`: the length follows an
/// axis-aligned placement.
pub open spec fn wall_after_move(before: Wall, after: Wall, old: Point2, new: Point2) -> bool {
    let touched = before.start == old || before.end == old;
    &&& after.start == moved(before.start, old, new)
    &&& after.end == moved(before.end, old, new)
    &&& after.length.ticks == if touched && placement_length_spec(after.start, after.end) is Some {
        placement_length_spec(after.start, after.end)->0
    } else {
        before.length.ticks as int
    }
    &&& after.id == before.id
    &&& after.name == before.name
    &&& after.level == before.level
    &&& after.height == before.height
    &&& after.system == before.system
    &&& after.openings == before.openings
    &&& after.bracing == before.bracing
    &&& after.dimensions == before.dimensions
    &&& after.tags == before.tags
}

/// Every moved wall keeps an axis-aligned length that fits.
pub open spec fn moves_fit(walls: Seq<Wall>, old: Point2, new: Point2) -> bool {
    forall|i: int| 0 <= i < walls.len() ==> placement_fits(
        moved((#[trigger] walls[i]).start, old, new),
        moved(walls[i].end, old, new),
    )
}

/// Everything of the model but its walls is the same.
pub open spec fn same_but_walls(a: BuildingModel, b: BuildingModel) -> bool {
    &&& a.site == b.site
    &&& a.standards == b.standards
    &&& a.standards_packs == b.standards_packs
    &&& a.libraries == b.libraries
    &&& a.materials == b.materials
    &&& a.systems == b.systems
    &&& a.furnishings == b.furnishings
    &&& a.mep_objects == b.mep_objects
    &&& a.levels == b.levels
    &&& a.wall_joins == b.wall_joins
    &&& a.rooms == b.rooms
    &&& a.furnishing_instances == b.furnishing_instances
    &&& a.mep_instances == b.mep_instances
    &&& a.roof_planes == b.roof_planes
    &&& a.ceilings == b.ceilings
    &&& a.floor_decks == b.floor_decks
    &&& a.braced_wall_lines == b.braced_wall_lines
}

/// The walls other than `wall` are kept.
pub open spec fn wall_kept(wall: Seq<char>) -> spec_fn(Wall) -> bool {
    |w: Wall| w.id@ != wall
}

/// The joins that do not reference `wall` are kept.
pub open spec fn join_kept(wall: Seq<char>) -> spec_fn(WallJoin) -> bool {
    |j: WallJoin| j.first_wall@ != wall && j.second_wall@ != wall
}

/// A wall and its join references drop out; nothing else changes.
/// Every part but the walls and the wall joins is the same.
pub open spec fn same_but_walls_and_joins(a: BuildingModel, b: BuildingModel) -> bool {
    &&& a.site == b.site
    &&& a.standards == b.standards
    &&& a.standards_packs == b.standards_packs
    &&& a.libraries == b.libraries
    &&& a.materials == b.materials
    &&& a.systems == b.systems
    &&& a.furnishings == b.furnishings
    &&& a.mep_objects == b.mep_objects
    &&& a.levels == b.levels
    &&& a.rooms == b.rooms
    &&& a.furnishing_instances == b.furnishing_instances
    &&& a.mep_instances == b.mep_instances
    &&& a.roof_planes == b.roof_planes
    &&& a.ceilings == b.ceilings
    &&& a.floor_decks == b.floor_decks
    &&& a.braced_wall_lines == b.braced_wall_lines
}

/// `b` is `a` without the walls that carry id `wall` and without the joins that name it.
pub open spec fn wall_removed(a: BuildingModel, b: BuildingModel, wall: Seq<char>) -> bool {
    &&& b.walls@ == a.walls@.filter(wall_kept(wall))
    &&& b.wall_joins@ == a.wall_joins@.filter(join_kept(wall))
}

/// The default standards stack: the starter pack, alone.
fn default_standards_stack() -> (r: (Vec<ElementId>, Vec<StandardsPack>))
    ensures
        r.0@.len() == 1,
        r.1@.len() == 1,
        r.0@[0]@ == r.1@[0].id@,
        starter_pack(r.1@[0]),
{
    let pack = StandardsPack::irc_2021_starter();
    let mut standards: Vec<ElementId> = Vec::new();
    standards.push(pack.id.clone());
    let mut packs: Vec<StandardsPack> = Vec::new();
    packs.push(pack);
    (standards, packs)
}

/// The default single level.
fn default_levels() -> (r: Vec<Level>)
    ensures
        r@.len() == 1,
        r@[0].id@ == "level-1"@,
        r@[0].name@ == "Level 1"@,
        r@[0].elevation.ticks == 0,
        r@[0].height.ticks == 0,
{
    let mut levels: Vec<Level> = Vec::new();
    levels.push(Level::new("level-1", "Level 1", Length::zero()));
    levels
}

/// The ids of a starter catalog: its materials', then its systems'.
pub open spec fn starter_ids(starter: Library) -> Seq<Seq<char>> {
    crate::library::material_ids(starter.materials@) + crate::library::system_ids(starter.systems@)
}

impl BuildingModel {
    /// A model with the default standards, one level, the starter catalog
    /// (the materials and systems of `starter`), and nothing placed.
    pub fn new(starter: Library) -> (r: BuildingModel)
        ensures
            r.materials == starter.materials,
            r.systems == starter.systems,
            r.standards@.len() == 1,
            r.standards@[0]@ == "std-irc-2021"@,
            r.standards_packs@.len() == 1,
            starter_pack(r.standards_packs@[0]),
            r.levels@.len() == 1,
            r.levels@[0].id@ == "level-1"@,
            r.levels@[0].name@ == "Level 1"@,
            r.levels@[0].elevation.ticks == 0,
            r.levels@[0].height.ticks == 0,
            r.libraries@.len() == 0,
            r.furnishings@.len() == 0,
            r.mep_objects@.len() == 0,
            r.furnishing_instances@.len() == 0,
            r.mep_instances@.len() == 0,
            r.braced_wall_lines@.len() == 0,
            catalog_valid(starter.materials@, starter.systems@) && (forall|i: int|
                0 <= i < starter.materials@.len() ==> appearance_valid((#[trigger] starter.materials@[i]).appearance))
                && !starter_ids(starter).contains("level-1"@) && !starter_ids(starter).contains("std-irc-2021"@)
                ==> model_valid(r),
            r.walls@.len() == 0,
            r.wall_joins@.len() == 0,
            r.rooms@.len() == 0,
            r.roof_planes@.len() == 0,
            r.ceilings@.len() == 0,
            r.floor_decks@.len() == 0,
    {
        let (standards, standards_packs) = default_standards_stack();
        proof {
            reveal_strlit("std-irc-2021");
            reveal_strlit("level-1");
        }
        let r = BuildingModel {
            site: SiteContext::empty(),
            standards,
            standards_packs,
            libraries: Vec::new(),
            materials: starter.materials,
            systems: starter.systems,
            furnishings: Vec::new(),
            mep_objects: Vec::new(),
            levels: default_levels(),
            walls: Vec::new(),
            wall_joins: Vec::new(),
            rooms: Vec::new(),
            furnishing_instances: Vec::new(),
            mep_instances: Vec::new(),
            roof_planes: Vec::new(),
            ceilings: Vec::new(),
            floor_decks: Vec::new(),
            braced_wall_lines: Vec::new(),
        };
        proof {
            assert(r.levels@[0].id@ == "level-1"@);
            assert(valid_id(r.levels@[0].id@));
            assert(valid_id(r.standards@[0]@));
            assert(r.standards_packs@[0].key() == r.standards@[0]@);
            assert(key_index(r.standards_packs@, r.standards@[0]@) == 0);
            if catalog_valid(starter.materials@, starter.systems@) && (forall|i: int|
                0 <= i < starter.materials@.len() ==> appearance_valid((#[trigger] starter.materials@[i]).appearance))
                && !starter_ids(starter).contains("level-1"@) && !starter_ids(starter).contains("std-irc-2021"@) {
                assert(r.materials@.map_values(|x: Material| x.id@) =~= crate::library::material_ids(r.materials@));
                let c = starter_ids(starter);
                assert(walls_ids(r.walls@) =~= Seq::<Seq<char>>::empty());
                assert(roofs_ids(r.roof_planes@) =~= Seq::<Seq<char>>::empty());
                assert(model_ids(r) =~= seq!["level-1"@, "std-irc-2021"@] + c);
                assert("level-1"@ != "std-irc-2021"@) by {
                    assert("level-1"@[0] != "std-irc-2021"@[0]);
                }
                assert(c.no_duplicates()) by {
                    assert forall|a: int, b: int| 0 <= a < c.len() && 0 <= b < c.len() && a != b implies c[a] != c[b] by {
                        if a > b {
                            assert(c[b] != c[a]);
                        }
                    }
                }
                lemma_concat_distinct(seq!["level-1"@, "std-irc-2021"@], c);
            }
        }
        r
    }

    /// The framing defaults of the last resolvable pack in the standards stack,
    /// else the starter defaults.
    pub fn framing_defaults(&self) -> (r: FramingDefaults)
        ensures
            r == match stack_defaults(self.standards@, self.standards_packs@) {
                Some(d) => d,
                None => starter_defaults(),
            },
    {
        let mut i = self.standards.len();
        assert(self.standards@.subrange(0, i as int) =~= self.standards@);
        while i > 0
            invariant
                i <= self.standards.len(),
                stack_defaults(self.standards@.subrange(0, i as int), self.standards_packs@) == stack_defaults(
                    self.standards@,
                    self.standards_packs@,
                ),
            decreases i,
        {
            let ghost prefix = self.standards@.subrange(0, i as int);
            proof {
                assert(prefix.last() == self.standards@[i - 1]);
                assert(prefix.drop_last() =~= self.standards@.subrange(0, i - 1));
            }
            match find_pack(&self.standards_packs, &self.standards[i - 1]) {
                Some(k) => {
                    return self.standards_packs[k].tables.defaults;
                },
                None => {},
            }
            i = i - 1;
        }
        FramingDefaults::irc_2021_starter()
    }

    /// The name of the first pack of the stack, when it resolves.
    pub fn base_standards_name(&self) -> (r: Option<&str>)
        ensures
            r matches Some(name) ==> self.standards@.len() > 0 && pack_index(self.standards_packs@, self.standards@[0]@) >= 0
                && name@ == self.standards_packs@[pack_index(self.standards_packs@, self.standards@[0]@)].name@,
            r is None ==> self.standards@.len() == 0 || pack_index(self.standards_packs@, self.standards@[0]@) == -1,
    {
        if self.standards.len() == 0 {
            return None;
        }
        match find_pack(&self.standards_packs, &self.standards[0]) {
            Some(k) => Some(self.standards_packs[k].name.as_str()),
            None => None,
        }
    }

    /// The construction system a wall references.
    pub fn system_for(&self, wall: &Wall) -> (r: Option<&ConstructionSystem>)
        ensures
            r matches Some(s) ==> 0 <= system_index(self.systems@, wall.system@) < self.systems@.len() && *s == self.systems@[system_index(
                self.systems@,
                wall.system@,
            )],
            r is None ==> system_index(self.systems@, wall.system@) == -1,
    {
        let ghost p = |s: ConstructionSystem| s.id@ == wall.system@;
        let mut i: usize = 0;
        while i < self.systems.len()
            invariant
                i <= self.systems.len(),
                p == (|s: ConstructionSystem| s.id@ == wall.system@),
                forall|j: int| 0 <= j < i ==> !p(#[trigger] self.systems@[j]),
            decreases self.systems.len() - i,
        {
            if self.systems[i].id == wall.system {
                proof {
                    lemma_first_index(self.systems@, p, i as int);
                }
                return Some(&self.systems[i]);
            }
            i = i + 1;
        }
        proof {
            lemma_first_index(self.systems@, p, i as int);
        }
        None
    }

    /// The material with id `id`.
    pub fn material(&self, id: &ElementId) -> (r: Option<&Material>)
        ensures
            r matches Some(m) ==> material_index(self.materials@, id@) >= 0 && *m == self.materials@[material_index(
                self.materials@,
                id@,
            )],
            r is None ==> material_index(self.materials@, id@) == -1,
    {
        let ghost p = |m: Material| m.id@ == id@;
        let mut i: usize = 0;
        while i < self.materials.len()
            invariant
                i <= self.materials.len(),
                p == (|m: Material| m.id@ == id@),
                forall|j: int| 0 <= j < i ==> !p(#[trigger] self.materials@[j]),
            decreases self.materials.len() - i,
        {
            if self.materials[i].id == *id {
                proof {
                    lemma_first_index(self.materials@, p, i as int);
                }
                return Some(&self.materials[i]);
            }
            i = i + 1;
        }
        proof {
            lemma_first_index(self.materials@, p, i as int);
        }
        None
    }

    /// Removes a wall (with its openings and dimensions) and every join that
    /// references it; `false`, and no change, when there is no such wall.
    pub fn remove_wall(&mut self, wall: &ElementId) -> (r: bool)
        ensures
            r == has_wall(old(self).walls@, wall@),
            r ==> wall_removed(*old(self), *final(self), wall@),
            !r ==> *final(self) == *old(self),
            same_but_walls_and_joins(*old(self), *final(self)),
    {
        let mut found = false;
        let mut i: usize = 0;
        while i < self.walls.len()
            invariant
                i <= self.walls.len(),
                found == exists|t: int| 0 <= t < i && self.walls@[t].id@ == wall@,
            decreases self.walls.len() - i,
        {
            if self.walls[i].id == *wall {
                found = true;
            }
            i = i + 1;
        }
        if !found {
            return false;
        }
        let ghost pred = wall_kept(wall@);
        let mut rest: Vec<Wall> = Vec::new();
        std::mem::swap(&mut rest, &mut self.walls);
        let ghost all = rest@;
        let n = rest.len();
        let mut kept: Vec<Wall> = Vec::new();
        let mut k: usize = 0;
        while rest.len() > 0
            invariant
                n == all.len(),
                rest@.len() + k == n,
                rest@ == all.subrange(k as int, n as int),
                kept@ == all.subrange(0, k as int).filter(pred),
                pred == wall_kept(wall@),
            decreases rest@.len(),
        {
            let w = rest.remove(0);
            proof {
                assert(all.subrange(0, k + 1) =~= all.subrange(0, k as int).push(w));
                all.subrange(0, k as int).lemma_filter_push(w, pred);
            }
            if w.id != *wall {
                kept.push(w);
            }
            k = k + 1;
            proof {
                assert(rest@ =~= all.subrange(k as int, n as int));
            }
        }
        proof {
            assert(all.subrange(0, n as int) =~= all);
        }
        self.walls = kept;
        let ghost jpred = join_kept(wall@);
        let mut jrest: Vec<WallJoin> = Vec::new();
        std::mem::swap(&mut jrest, &mut self.wall_joins);
        let ghost jall = jrest@;
        let m = jrest.len();
        let mut jkept: Vec<WallJoin> = Vec::new();
        let mut t: usize = 0;
        while jrest.len() > 0
            invariant
                m == jall.len(),
                jrest@.len() + t == m,
                jrest@ == jall.subrange(t as int, m as int),
                jkept@ == jall.subrange(0, t as int).filter(jpred),
                jpred == join_kept(wall@),
            decreases jrest@.len(),
        {
            let j = jrest.remove(0);
            proof {
                assert(jall.subrange(0, t + 1) =~= jall.subrange(0, t as int).push(j));
                jall.subrange(0, t as int).lemma_filter_push(j, jpred);
            }
            if j.first_wall != *wall && j.second_wall != *wall {
                jkept.push(j);
            }
            t = t + 1;
            proof {
                assert(jrest@ =~= jall.subrange(t as int, m as int));
            }
        }
        proof {
            assert(jall.subrange(0, m as int) =~= jall);
        }
        self.wall_joins = jkept;
        true
    }
}

/// After a wall is removed, no join refers to it, and every remaining join and
/// wall was there before.
pub proof fn lemma_remove_wall_leaves_no_dangling_join(before: BuildingModel, after: BuildingModel, wall: Seq<char>)
    requires
        wall_removed(before, after, wall),
    ensures
        forall|i: int| 0 <= i < after.wall_joins@.len() ==> (#[trigger] after.wall_joins@[i]).first_wall@ != wall
            && after.wall_joins@[i].second_wall@ != wall && before.wall_joins@.contains(after.wall_joins@[i]),
        forall|i: int| 0 <= i < after.walls@.len() ==> (#[trigger] after.walls@[i]).id@ != wall && before.walls@.contains(after.walls@[i]),
{
    let jpred = join_kept(wall);
    let wpred = wall_kept(wall);
    lemma_filter_within(before.wall_joins@, jpred);
    lemma_filter_within(before.walls@, wpred);
    assert forall|i: int| 0 <= i < after.wall_joins@.len() implies (#[trigger] after.wall_joins@[i]).first_wall@ != wall
        && after.wall_joins@[i].second_wall@ != wall && before.wall_joins@.contains(after.wall_joins@[i]) by {
        assert(jpred(after.wall_joins@[i]));
    }
    assert forall|i: int| 0 <= i < after.walls@.len() implies (#[trigger] after.walls@[i]).id@ != wall && before.walls@.contains(after.walls@[i]) by {
        assert(wpred(after.walls@[i]));
    }
}

impl Keyed for StandardsPack {
    open spec fn key(&self) -> Seq<char> {
        self.id@
    }

    fn key_str(&self) -> (r: &str) {
        self.id.as_str()
    }
}

impl Keyed for Furnishing {
    open spec fn key(&self) -> Seq<char> {
        self.id@
    }

    fn key_str(&self) -> (r: &str) {
        self.id.as_str()
    }
}

impl Keyed for MepObject {
    open spec fn key(&self) -> Seq<char> {
        self.id@
    }

    fn key_str(&self) -> (r: &str) {
        self.id.as_str()
    }
}

impl Keyed for Level {
    open spec fn key(&self) -> Seq<char> {
        self.id@
    }

    fn key_str(&self) -> (r: &str) {
        self.id.as_str()
    }
}

impl Keyed for Wall {
    open spec fn key(&self) -> Seq<char> {
        self.id@
    }

    fn key_str(&self) -> (r: &str) {
        self.id.as_str()
    }
}

impl Keyed for WallJoin {
    open spec fn key(&self) -> Seq<char> {
        self.id@
    }

    fn key_str(&self) -> (r: &str) {
        self.id.as_str()
    }
}

impl Keyed for Room {
    open spec fn key(&self) -> Seq<char> {
        self.id@
    }

    fn key_str(&self) -> (r: &str) {
        self.id.as_str()
    }
}

impl Keyed for FurnishingInstance {
    open spec fn key(&self) -> Seq<char> {
        self.id@
    }

    fn key_str(&self) -> (r: &str) {
        self.id.as_str()
    }
}

impl Keyed for MepInstance {
    open spec fn key(&self) -> Seq<char> {
        self.id@
    }

    fn key_str(&self) -> (r: &str) {
        self.id.as_str()
    }
}

impl Keyed for RoofPlane {
    open spec fn key(&self) -> Seq<char> {
        self.id@
    }

    fn key_str(&self) -> (r: &str) {
        self.id.as_str()
    }
}

impl Keyed for RoofOpening {
    open spec fn key(&self) -> Seq<char> {
        self.id@
    }

    fn key_str(&self) -> (r: &str) {
        self.id.as_str()
    }
}

impl Keyed for Ceiling {
    open spec fn key(&self) -> Seq<char> {
        self.id@
    }

    fn key_str(&self) -> (r: &str) {
        self.id.as_str()
    }
}

impl Keyed for FloorDeck {
    open spec fn key(&self) -> Seq<char> {
        self.id@
    }

    fn key_str(&self) -> (r: &str) {
        self.id.as_str()
    }
}

impl Keyed for BracedWallLine {
    open spec fn key(&self) -> Seq<char> {
        self.id@
    }

    fn key_str(&self) -> (r: &str) {
        self.id.as_str()
    }
}

impl Keyed for Opening {
    open spec fn key(&self) -> Seq<char> {
        self.id@
    }

    fn key_str(&self) -> (r: &str) {
        self.id.as_str()
    }
}

impl Keyed for BracedPanel {
    open spec fn key(&self) -> Seq<char> {
        self.id@
    }

    fn key_str(&self) -> (r: &str) {
        self.id.as_str()
    }
}

impl Keyed for DimensionConstraint {
    open spec fn key(&self) -> Seq<char> {
        self.id@
    }

    fn key_str(&self) -> (r: &str) {
        self.id.as_str()
    }
}

impl Wall {
    /// Orders openings, bracing panels and dimensions by id.
    pub fn sort_deterministically(&mut self)
        ensures
            sorted_by_key(final(self).openings@),
            sorted_by_key(final(self).bracing@),
            sorted_by_key(final(self).dimensions@),
            final(self).openings@.to_multiset() == old(self).openings@.to_multiset(),
            final(self).bracing@.to_multiset() == old(self).bracing@.to_multiset(),
            final(self).dimensions@.to_multiset() == old(self).dimensions@.to_multiset(),
            *final(self) == (Wall {
                openings: final(self).openings,
                bracing: final(self).bracing,
                dimensions: final(self).dimensions,
                ..*old(self)
            }),
    {
        sort_by_key(&mut self.openings);
        sort_by_key(&mut self.bracing);
        sort_by_key(&mut self.dimensions);
    }
}

/// `b` is wall `a` with its openings, bracing and dimensions reordered by id.
pub open spec fn wall_resorted(a: Wall, b: Wall) -> bool {
    &&& b == (Wall { openings: b.openings, bracing: b.bracing, dimensions: b.dimensions, ..a })
    &&& b.openings@.to_multiset() == a.openings@.to_multiset()
    &&& b.bracing@.to_multiset() == a.bracing@.to_multiset()
    &&& b.dimensions@.to_multiset() == a.dimensions@.to_multiset()
    &&& sorted_by_key(b.openings@) && sorted_by_key(b.bracing@) && sorted_by_key(b.dimensions@)
}

/// `b` is roof plane `a` with its openings reordered by id.
pub open spec fn roof_resorted(a: RoofPlane, b: RoofPlane) -> bool {
    &&& b == (RoofPlane { openings: b.openings, ..a })
    &&& b.openings@.to_multiset() == a.openings@.to_multiset()
    &&& sorted_by_key(b.openings@)
}

/// `after` is a reordering of `before` in which each wall has its inner
/// lists reordered by id.
pub open spec fn walls_reordered(before: Seq<Wall>, after: Seq<Wall>) -> bool {
    exists|mid: Seq<Wall>|
        #![trigger mid.to_multiset()]
        mid.to_multiset() == before.to_multiset() && mid.len() == after.len() && forall|i: int|
            0 <= i < after.len() ==> wall_resorted(#[trigger] mid[i], after[i])
}

/// `after` is a reordering of `before` in which each plane has its openings
/// reordered by id.
pub open spec fn roofs_reordered(before: Seq<RoofPlane>, after: Seq<RoofPlane>) -> bool {
    exists|mid: Seq<RoofPlane>|
        #![trigger mid.to_multiset()]
        mid.to_multiset() == before.to_multiset() && mid.len() == after.len() && forall|i: int|
            0 <= i < after.len() ==> roof_resorted(#[trigger] mid[i], after[i])
}

/// Wall `w` on level 1 runs from `(x0, y0)` to `(x1, y1)` (inches) on the
/// exterior wall system at the starter height, with nothing braced or dimensioned.
pub open spec fn shell_wall(w: Wall, id: Seq<char>, name: Seq<char>, x0: int, y0: int, x1: int, y1: int) -> bool {
    placed_wall(w, id, name, "system-wall-exterior-1"@, x0, y0, x1, y1)
}

/// Wall `w` on level 1 runs from `(x0, y0)` to `(x1, y1)` (inches) on
/// `system` at the starter height, with nothing braced or dimensioned.
pub open spec fn placed_wall(w: Wall, id: Seq<char>, name: Seq<char>, system: Seq<char>, x0: int, y0: int, x1: int, y1: int) -> bool {
    &&& w.id@ == id
    &&& w.name@ == name
    &&& w.level@ == "level-1"@
    &&& w.start.x.ticks == 16 * x0 && w.start.y.ticks == 16 * y0
    &&& w.end.x.ticks == 16 * x1 && w.end.y.ticks == 16 * y1
    &&& w.length.ticks == 16 * (if x0 == x1 { if y1 >= y0 { y1 - y0 } else { y0 - y1 } } else { if x1 >= x0 { x1 - x0 } else { x0 - x1 } })
    &&& w.height.ticks == 16 * 96
    &&& w.system@ == system
    &&& w.bracing@.len() == 0
    &&& w.dimensions@.len() == 0
}

/// Opening `o` has the given id and kind, center, width, height and sill
/// (inches).
pub open spec fn opening_is(o: Opening, id: Seq<char>, kind: OpeningKind, center: int, width: int, height: int, sill: int) -> bool {
    &&& o.id@ == id
    &&& o.kind == kind
    &&& o.center.ticks == 16 * center
    &&& o.width.ticks == 16 * width
    &&& o.height.ticks == 16 * height
    &&& o.sill_height.ticks == 16 * sill
}

/// Join `j` has the given id and kind, joins `first` to `second`, at
/// `(x, y)` (inches).
pub open spec fn join_is(j: WallJoin, id: Seq<char>, kind: WallJoinKind, first: Seq<char>, second: Seq<char>, x: int, y: int) -> bool {
    &&& j.id@ == id
    &&& j.kind == kind
    &&& j.first_wall@ == first
    &&& j.second_wall@ == second
    &&& j.point.x.ticks == 16 * x
    &&& j.point.y.ticks == 16 * y
}

/// Room `r` on level 1 has the given id, name, use and seed point (inches).
pub open spec fn room_is(r: Room, id: Seq<char>, name: Seq<char>, usage: RoomUsage, x: int, y: int) -> bool {
    &&& r.id@ == id
    &&& r.name@ == name
    &&& r.usage == usage
    &&& r.level@ == "level-1"@
    &&& r.seed.x.ticks == 16 * x
    &&& r.seed.y.ticks == 16 * y
}

/// Keys that agree before position `k` and rise at `k` are in order.
proof fn lemma_keys_rise<T: Keyed>(a: T, b: T, k: int)
    requires
        0 <= k < a.key().len(),
        k < b.key().len(),
        forall|j: int| 0 <= j < k ==> a.key()[j] == b.key()[j],
        (a.key()[k] as int) < (b.key()[k] as int),
    ensures
        crate::text::seq_le(a.key(), b.key()),
{
    assert(crate::text::common_prefix(a.key(), b.key(), k));
}

/// Four records whose keys share the first `k` characters and rise at `k`
/// are sorted.
proof fn lemma_sorted4<T: Keyed>(s: Seq<T>, k: int)
    requires
        0 <= k,
        s.len() == 4,
        forall|i: int| 0 <= i < 4 ==> k < (#[trigger] s[i]).key().len(),
        forall|i: int, j: int| 0 <= i < 4 && 0 <= j < k ==> #[trigger] s[i].key()[j] == s[0].key()[j],
        (s[0].key()[k] as int) < (s[1].key()[k] as int),
        (s[1].key()[k] as int) < (s[2].key()[k] as int),
        (s[2].key()[k] as int) < (s[3].key()[k] as int),
    ensures
        sorted_by_key(s),
{
    assert forall|a: int, b: int| 0 <= a < b < s.len() implies crate::text::seq_le(#[trigger] s[a].key(), #[trigger] s[b].key()) by {
        assert forall|j: int| 0 <= j < k implies s[a].key()[j] == s[b].key()[j] by {
            assert(s[a].key()[j] == s[0].key()[j]);
            assert(s[b].key()[j] == s[0].key()[j]);
        }
        lemma_keys_rise(s[a], s[b], k);
    }
}

/// Two records whose keys share the first `k` characters and rise at `k`
/// are sorted.
proof fn lemma_sorted2<T: Keyed>(s: Seq<T>, k: int)
    requires
        0 <= k,
        s.len() == 2,
        k < s[0].key().len(),
        k < s[1].key().len(),
        forall|j: int| 0 <= j < k ==> s[0].key()[j] == s[1].key()[j],
        (s[0].key()[k] as int) < (s[1].key()[k] as int),
    ensures
        sorted_by_key(s),
{
    lemma_keys_rise(s[0], s[1], k);
}

/// `b` is `a` in the canonical order: every id-keyed list of `a` reordered
/// by id, the standards stack, site and library stamps kept.
pub open spec fn sorts_to(a: BuildingModel, b: BuildingModel) -> bool {
    &&& model_sorted(b)
    &&& b.standards_packs@.to_multiset() == a.standards_packs@.to_multiset()
    &&& b.materials@.to_multiset() == a.materials@.to_multiset()
    &&& b.systems@.to_multiset() == a.systems@.to_multiset()
    &&& b.furnishings@.to_multiset() == a.furnishings@.to_multiset()
    &&& b.mep_objects@.to_multiset() == a.mep_objects@.to_multiset()
    &&& b.levels@.to_multiset() == a.levels@.to_multiset()
    &&& walls_reordered(a.walls@, b.walls@)
    &&& b.wall_joins@.to_multiset() == a.wall_joins@.to_multiset()
    &&& b.rooms@.to_multiset() == a.rooms@.to_multiset()
    &&& b.furnishing_instances@.to_multiset() == a.furnishing_instances@.to_multiset()
    &&& b.mep_instances@.to_multiset() == a.mep_instances@.to_multiset()
    &&& roofs_reordered(a.roof_planes@, b.roof_planes@)
    &&& b.ceilings@.to_multiset() == a.ceilings@.to_multiset()
    &&& b.floor_decks@.to_multiset() == a.floor_decks@.to_multiset()
    &&& b.braced_wall_lines@.to_multiset() == a.braced_wall_lines@.to_multiset()
    &&& b.standards == a.standards
    &&& b.site == a.site
    &&& b.libraries@.to_multiset() == a.libraries@.to_multiset()
}

/// Every wall's openings, bracing and dimensions are ordered by id.
pub open spec fn walls_inner_sorted(walls: Seq<Wall>) -> bool {
    forall|i: int| 0 <= i < walls.len() ==> sorted_by_key((#[trigger] walls[i]).openings@) && sorted_by_key(walls[i].bracing@)
        && sorted_by_key(walls[i].dimensions@)
}

/// Every roof plane's openings are ordered by id.
pub open spec fn roofs_inner_sorted(roofs: Seq<RoofPlane>) -> bool {
    forall|i: int| 0 <= i < roofs.len() ==> sorted_by_key((#[trigger] roofs[i]).openings@)
}

/// The canonical order: every id-keyed list sorted by id.
pub open spec fn model_sorted(m: BuildingModel) -> bool {
    &&& sorted_by_key(m.standards_packs@)
    &&& sorted_by_key(m.materials@)
    &&& sorted_by_key(m.systems@)
    &&& sorted_by_key(m.furnishings@)
    &&& sorted_by_key(m.mep_objects@)
    &&& sorted_by_key(m.levels@)
    &&& sorted_by_key(m.walls@)
    &&& walls_inner_sorted(m.walls@)
    &&& sorted_by_key(m.wall_joins@)
    &&& sorted_by_key(m.rooms@)
    &&& sorted_by_key(m.furnishing_instances@)
    &&& sorted_by_key(m.mep_instances@)
    &&& sorted_by_key(m.roof_planes@)
    &&& roofs_inner_sorted(m.roof_planes@)
    &&& sorted_by_key(m.ceilings@)
    &&& sorted_by_key(m.floor_decks@)
    &&& sorted_by_key(m.braced_wall_lines@)
    &&& stamps_sorted(m.libraries@)
}

/// Each wall's inner lists get sorted, keeping the order of the walls.
fn sort_walls_inner(walls: Vec<Wall>) -> (r: Vec<Wall>)
    ensures
        r@.len() == walls@.len(),
        forall|i: int| 0 <= i < walls@.len() ==> (#[trigger] r@[i]).id == walls@[i].id,
        forall|i: int| 0 <= i < walls@.len() ==> wall_resorted(walls@[i], #[trigger] r@[i]),
        walls_inner_sorted(r@),
{
    let mut rest = walls;
    let ghost all = rest@;
    let n = rest.len();
    let mut out: Vec<Wall> = Vec::new();
    while rest.len() > 0
        invariant
            n == all.len(),
            rest@.len() + out@.len() == n,
            rest@ == all.subrange(out@.len() as int, n as int),
            forall|i: int| 0 <= i < out@.len() ==> (#[trigger] out@[i]).id == all[i].id,
            forall|i: int| 0 <= i < out@.len() ==> wall_resorted(all[i], #[trigger] out@[i]),
            walls_inner_sorted(out@),
        decreases rest@.len(),
    {
        let ghost k = out@.len();
        let mut w = rest.remove(0);
        w.sort_deterministically();
        out.push(w);
        proof {
            assert(rest@ =~= all.subrange(out@.len() as int, n as int));
        }
    }
    out
}

/// Each roof plane's openings get sorted, keeping the order of the planes.
fn sort_roofs_inner(roofs: Vec<RoofPlane>) -> (r: Vec<RoofPlane>)
    ensures
        r@.len() == roofs@.len(),
        forall|i: int| 0 <= i < roofs@.len() ==> (#[trigger] r@[i]).id == roofs@[i].id,
        forall|i: int| 0 <= i < roofs@.len() ==> roof_resorted(roofs@[i], #[trigger] r@[i]),
        roofs_inner_sorted(r@),
{
    let mut rest = roofs;
    let ghost all = rest@;
    let n = rest.len();
    let mut out: Vec<RoofPlane> = Vec::new();
    while rest.len() > 0
        invariant
            n == all.len(),
            rest@.len() + out@.len() == n,
            rest@ == all.subrange(out@.len() as int, n as int),
            forall|i: int| 0 <= i < out@.len() ==> (#[trigger] out@[i]).id == all[i].id,
            forall|i: int| 0 <= i < out@.len() ==> roof_resorted(all[i], #[trigger] out@[i]),
            roofs_inner_sorted(out@),
        decreases rest@.len(),
    {
        let mut p = rest.remove(0);
        sort_by_key(&mut p.openings);
        out.push(p);
        proof {
            assert(rest@ =~= all.subrange(out@.len() as int, n as int));
        }
    }
    out
}

/// Sorting keys after an id-preserving pass over a sorted list keeps it sorted.
proof fn lemma_same_ids_sorted<T: Keyed>(a: Seq<T>, b: Seq<T>)
    requires
        sorted_by_key(a),
        a.len() == b.len(),
        forall|i: int| 0 <= i < a.len() ==> (#[trigger] b[i]).key() == a[i].key(),
    ensures
        sorted_by_key(b),
{
    assert forall|x: int, y: int| 0 <= x < y < b.len() implies crate::text::seq_le(#[trigger] b[x].key(), #[trigger] b[y].key()) by {
        assert(b[x].key() == a[x].key() && b[y].key() == a[y].key());
    }
}

impl BuildingModel {
    /// Orders every id-keyed list by id (walls' openings, bracing and dimensions
    /// and roof openings too); outlines and layer orders are left alone.
    pub fn sort_deterministically(&mut self)
        ensures
            model_sorted(*final(self)),
            final(self).standards_packs@.to_multiset() == old(self).standards_packs@.to_multiset(),
            final(self).materials@.to_multiset() == old(self).materials@.to_multiset(),
            final(self).systems@.to_multiset() == old(self).systems@.to_multiset(),
            final(self).levels@.to_multiset() == old(self).levels@.to_multiset(),
            final(self).wall_joins@.to_multiset() == old(self).wall_joins@.to_multiset(),
            final(self).rooms@.to_multiset() == old(self).rooms@.to_multiset(),
            final(self).walls@.len() == old(self).walls@.len(),
            final(self).roof_planes@.len() == old(self).roof_planes@.len(),
            walls_reordered(old(self).walls@, final(self).walls@),
            roofs_reordered(old(self).roof_planes@, final(self).roof_planes@),
            final(self).furnishings@.to_multiset() == old(self).furnishings@.to_multiset(),
            final(self).mep_objects@.to_multiset() == old(self).mep_objects@.to_multiset(),
            final(self).furnishing_instances@.to_multiset() == old(self).furnishing_instances@.to_multiset(),
            final(self).mep_instances@.to_multiset() == old(self).mep_instances@.to_multiset(),
            final(self).ceilings@.to_multiset() == old(self).ceilings@.to_multiset(),
            final(self).floor_decks@.to_multiset() == old(self).floor_decks@.to_multiset(),
            final(self).braced_wall_lines@.to_multiset() == old(self).braced_wall_lines@.to_multiset(),
            final(self).standards == old(self).standards,
            final(self).site == old(self).site,
            final(self).libraries@.to_multiset() == old(self).libraries@.to_multiset(),
    {
        sort_by_key(&mut self.standards_packs);
        sort_stamps(&mut self.libraries);
        sort_by_key(&mut self.materials);
        sort_by_key(&mut self.systems);
        sort_by_key(&mut self.furnishings);
        sort_by_key(&mut self.mep_objects);
        sort_by_key(&mut self.levels);
        let mut walls: Vec<Wall> = Vec::new();
        std::mem::swap(&mut walls, &mut self.walls);
        sort_by_key(&mut walls);
        let ghost sorted_walls = walls@;
        let walls = sort_walls_inner(walls);
        proof {
            lemma_same_ids_sorted(sorted_walls, walls@);
            assert(walls_reordered(old(self).walls@, walls@)) by {
                assert(sorted_walls.to_multiset() == old(self).walls@.to_multiset());
            }
        }
        self.walls = walls;
        sort_by_key(&mut self.wall_joins);
        sort_by_key(&mut self.rooms);
        sort_by_key(&mut self.furnishing_instances);
        sort_by_key(&mut self.mep_instances);
        let mut roofs: Vec<RoofPlane> = Vec::new();
        std::mem::swap(&mut roofs, &mut self.roof_planes);
        sort_by_key(&mut roofs);
        let ghost sorted_roofs = roofs@;
        let roofs = sort_roofs_inner(roofs);
        proof {
            lemma_same_ids_sorted(sorted_roofs, roofs@);
            assert(roofs_reordered(old(self).roof_planes@, roofs@)) by {
                assert(sorted_roofs.to_multiset() == old(self).roof_planes@.to_multiset());
            }
        }
        self.roof_planes = roofs;
        sort_by_key(&mut self.ceilings);
        sort_by_key(&mut self.floor_decks);
        sort_by_key(&mut self.braced_wall_lines);
    }

    pub fn into_deterministic(self) -> (r: BuildingModel)
        ensures
            model_sorted(r),
            r.standards_packs@.to_multiset() == self.standards_packs@.to_multiset(),
            r.materials@.to_multiset() == self.materials@.to_multiset(),
            r.systems@.to_multiset() == self.systems@.to_multiset(),
            r.levels@.to_multiset() == self.levels@.to_multiset(),
            r.wall_joins@.to_multiset() == self.wall_joins@.to_multiset(),
            r.rooms@.to_multiset() == self.rooms@.to_multiset(),
            r.walls@.len() == self.walls@.len(),
            r.roof_planes@.len() == self.roof_planes@.len(),
            walls_reordered(self.walls@, r.walls@),
            roofs_reordered(self.roof_planes@, r.roof_planes@),
            r.furnishings@.to_multiset() == self.furnishings@.to_multiset(),
            r.mep_objects@.to_multiset() == self.mep_objects@.to_multiset(),
            r.furnishing_instances@.to_multiset() == self.furnishing_instances@.to_multiset(),
            r.mep_instances@.to_multiset() == self.mep_instances@.to_multiset(),
            r.ceilings@.to_multiset() == self.ceilings@.to_multiset(),
            r.floor_decks@.to_multiset() == self.floor_decks@.to_multiset(),
            r.braced_wall_lines@.to_multiset() == self.braced_wall_lines@.to_multiset(),
            r.site == self.site,
            r.libraries@.to_multiset() == self.libraries@.to_multiset(),
            r.standards == self.standards,
    {
        let mut model = self;
        model.sort_deterministically();
        model
    }
}

/// A model around `walls` and `joins` with the default standards, one level
/// and the starter catalog.
fn model_with(starter: Library, walls: Vec<Wall>, wall_joins: Vec<WallJoin>, rooms: Vec<Room>) -> (r: BuildingModel)
    ensures
        r.walls == walls,
        r.wall_joins == wall_joins,
        r.rooms == rooms,
        r.materials == starter.materials,
        r.systems == starter.systems,
        r.levels@.len() == 1,
        r.levels@[0].id@ == "level-1"@,
        r.levels@[0].name@ == "Level 1"@,
        r.levels@[0].elevation.ticks == 0,
        r.levels@[0].height.ticks == 0,
        r.standards@.len() == 1,
        r.standards@[0]@ == "std-irc-2021"@,
        r.standards_packs@.len() == 1,
        starter_pack(r.standards_packs@[0]),
        r.libraries@.len() == 0,
        r.furnishings@.len() == 0,
        r.mep_objects@.len() == 0,
        r.furnishing_instances@.len() == 0,
        r.mep_instances@.len() == 0,
        r.roof_planes@.len() == 0,
        r.ceilings@.len() == 0,
        r.floor_decks@.len() == 0,
        r.braced_wall_lines@.len() == 0,
{
    let (standards, standards_packs) = default_standards_stack();
    BuildingModel {
        site: SiteContext::empty(),
        standards,
        standards_packs,
        libraries: Vec::new(),
        materials: starter.materials,
        systems: starter.systems,
        furnishings: Vec::new(),
        mep_objects: Vec::new(),
        levels: default_levels(),
        walls,
        wall_joins,
        rooms,
        furnishing_instances: Vec::new(),
        mep_instances: Vec::new(),
        roof_planes: Vec::new(),
        ceilings: Vec::new(),
        floor_decks: Vec::new(),
        braced_wall_lines: Vec::new(),
    }
}

impl BuildingModel {
    /// One 28' wall with a door, a garage door and a window.
    pub fn demo_wall(starter: Library) -> (r: BuildingModel)
        ensures
            r.walls@.len() == 1,
            r.walls@[0].id@ == "wall-1"@,
            r.walls@[0].openings@.len() == 3,
            r.wall_joins@.len() == 0,
            r.materials == starter.materials,
            r.systems == starter.systems,
    {
        let defaults = FramingDefaults::irc_2021_starter();
        let mut wall = Wall::new("wall-1", "Demo wall", Length::from_whole_inches(336), &defaults);
        wall.openings.push(
            Opening::door("opening-door-1", "Door", Length::from_whole_inches(36), Length::from_whole_inches(36), Length::from_whole_inches(80)),
        );
        wall.openings.push(
            Opening::door(
                "opening-garage-1",
                "Garage Door",
                Length::from_whole_inches(232),
                Length::from_whole_inches(96),
                Length::from_whole_inches(84),
            ).with_kind(OpeningKind::GarageDoor),
        );
        wall.openings.push(
            Opening::window(
                "opening-window-1",
                "Window",
                Length::from_whole_inches(108),
                Length::from_whole_inches(48),
                Length::from_whole_inches(48),
                Length::from_whole_inches(36),
            ),
        );
        let mut walls: Vec<Wall> = Vec::new();
        walls.push(wall);
        model_with(starter, walls, Vec::new(), Vec::new())
    }

    /// A 28' × 20' four-wall shell with doors and windows, closed by four corner
    /// joins, in the canonical order.
    pub fn demo_shell(starter: Library) -> (r: BuildingModel)
        ensures
            shell_layout(r),
            r.levels@.len() == 1,
            r.levels@[0].id@ == "level-1"@,
            r.standards@.len() == 1,
            r.standards@[0]@ == "std-irc-2021"@,
            r.standards_packs@.len() == 1,
            starter_pack(r.standards_packs@[0]),
            model_sorted(r),
            r.materials@.to_multiset() == starter.materials@.to_multiset(),
            r.systems@.to_multiset() == starter.systems@.to_multiset(),
            demo_catalog_ok(starter, shell_own_ids(), seq!["system-wall-exterior-1"@]) ==> model_valid(r),
    {
        let defaults = FramingDefaults::irc_2021_starter();
        let mut back = Wall::new("wall-back", "Back wall", Length::from_whole_inches(336), &defaults).with_placement(
            "level-1",
            Point2::new(Length::from_whole_inches(336), Length::from_whole_inches(240)),
            Point2::new(Length::from_whole_inches(0), Length::from_whole_inches(240)),
        );
        back.openings.push(
            Opening::window(
                "opening-back-left-window",
                "Back left window",
                Length::from_whole_inches(84),
                Length::from_whole_inches(48),
                Length::from_whole_inches(48),
                Length::from_whole_inches(36),
            ),
        );
        back.openings.push(
            Opening::window(
                "opening-back-right-window",
                "Back right window",
                Length::from_whole_inches(240),
                Length::from_whole_inches(48),
                Length::from_whole_inches(48),
                Length::from_whole_inches(36),
            ),
        );
        let mut front = Wall::new("wall-front", "Front wall", Length::from_whole_inches(336), &defaults).with_placement(
            "level-1",
            Point2::new(Length::from_whole_inches(0), Length::from_whole_inches(0)),
            Point2::new(Length::from_whole_inches(336), Length::from_whole_inches(0)),
        );
        front.openings.push(
            Opening::door(
                "opening-front-door",
                "Front door",
                Length::from_whole_inches(60),
                Length::from_whole_inches(36),
                Length::from_whole_inches(80),
            ),
        );
        front.openings.push(
            Opening::door(
                "opening-front-garage",
                "Garage door",
                Length::from_whole_inches(234),
                Length::from_whole_inches(96),
                Length::from_whole_inches(84),
            ).with_kind(OpeningKind::GarageDoor),
        );
        let mut left = Wall::new("wall-left", "Left wall", Length::from_whole_inches(240), &defaults).with_placement(
            "level-1",
            Point2::new(Length::from_whole_inches(0), Length::from_whole_inches(240)),
            Point2::new(Length::from_whole_inches(0), Length::from_whole_inches(0)),
        );
        left.openings.push(
            Opening::door(
                "opening-left-service-door",
                "Service door",
                Length::from_whole_inches(96),
                Length::from_whole_inches(36),
                Length::from_whole_inches(80),
            ),
        );
        let mut right = Wall::new("wall-right", "Right wall", Length::from_whole_inches(240), &defaults).with_placement(
            "level-1",
            Point2::new(Length::from_whole_inches(336), Length::from_whole_inches(0)),
            Point2::new(Length::from_whole_inches(336), Length::from_whole_inches(240)),
        );
        right.openings.push(
            Opening::window(
                "opening-right-window",
                "Right window",
                Length::from_whole_inches(120),
                Length::from_whole_inches(42),
                Length::from_whole_inches(42),
                Length::from_whole_inches(36),
            ),
        );
        let mut walls: Vec<Wall> = Vec::new();
        walls.push(back);
        walls.push(front);
        walls.push(left);
        walls.push(right);
        let mut joins: Vec<WallJoin> = Vec::new();
        joins.push(WallJoin::corner("join-back-left", "Back left corner", "wall-back", "wall-left", Point2::new(Length::from_whole_inches(0), Length::from_whole_inches(240))));
        joins.push(WallJoin::corner("join-front-right", "Front right corner", "wall-front", "wall-right", Point2::new(Length::from_whole_inches(336), Length::from_whole_inches(0))));
        joins.push(WallJoin::corner("join-left-front", "Left front corner", "wall-left", "wall-front", Point2::new(Length::from_whole_inches(0), Length::from_whole_inches(0))));
        joins.push(WallJoin::corner("join-right-back", "Right back corner", "wall-right", "wall-back", Point2::new(Length::from_whole_inches(336), Length::from_whole_inches(240))));
        let mut model = model_with(starter, walls, joins, Vec::new());
        sort_by_key(&mut model.materials);
        sort_by_key(&mut model.systems);
        proof {
            reveal_strlit("wall-back");
            reveal_strlit("wall-front");
            reveal_strlit("wall-left");
            reveal_strlit("wall-right");
            reveal_strlit("join-back-left");
            reveal_strlit("join-front-right");
            reveal_strlit("join-left-front");
            reveal_strlit("join-right-back");
            reveal_strlit("opening-back-left-window");
            reveal_strlit("opening-back-right-window");
            reveal_strlit("opening-front-door");
            reveal_strlit("opening-front-garage");
            lemma_sorted4(model.walls@, 5);
            lemma_sorted4(model.wall_joins@, 5);
            lemma_sorted2(model.walls@[0].openings@, 13);
            lemma_sorted2(model.walls@[1].openings@, 14);
            assert(sorted_by_key(model.walls@[2].openings@));
            assert(sorted_by_key(model.walls@[3].openings@));
            assert(walls_inner_sorted(model.walls@));
            assert(sorted_by_key(model.levels@));
            assert(sorted_by_key(model.standards_packs@));
            if demo_catalog_ok(starter, shell_own_ids(), seq!["system-wall-exterior-1"@]) {
                assert(demo_frame(model, starter));
                lemma_shell_valid(model, starter);
            }
        }
        model
    }

    /// A 24' × 16' two-bedroom plan: four perimeter walls with a front door, a
    /// center partition and a bedroom partition on the interior system, four
    /// corners and four tees, and three rooms.
    pub fn demo_two_bedroom(starter: Library) -> (r: BuildingModel)
        ensures
            two_bedroom_layout(r),
            r.levels@.len() == 1,
            r.levels@[0].id@ == "level-1"@,
            r.standards@.len() == 1,
            r.standards@[0]@ == "std-irc-2021"@,
            r.standards_packs@.len() == 1,
            starter_pack(r.standards_packs@[0]),
            model_sorted(r),
            r.materials@.to_multiset() == starter.materials@.to_multiset(),
            r.systems@.to_multiset() == starter.systems@.to_multiset(),
            demo_catalog_ok(starter, two_bedroom_own_ids(), seq!["system-wall-exterior-1"@, "system-wall-interior-1"@])
                ==> model_valid(r),
    {
        let defaults = FramingDefaults::irc_2021_starter();
        let ft0 = Length::from_whole_inches(0);
        let ft4 = Length::from_whole_inches(48);
        let ft6 = Length::from_whole_inches(72);
        let ft8 = Length::from_whole_inches(96);
        let ft12 = Length::from_whole_inches(144);
        let ft16 = Length::from_whole_inches(192);
        let ft18 = Length::from_whole_inches(216);
        let ft24 = Length::from_whole_inches(288);
        let one_foot = Length::from_whole_inches(12);
        let back = Wall::new("wall-back", "Back wall", one_foot, &defaults).with_placement(
            "level-1",
            Point2::new(ft24, ft16),
            Point2::new(ft0, ft16),
        );
        let mut bed = Wall::new("wall-bed", "Bedroom partition", one_foot, &defaults).with_placement(
            "level-1",
            Point2::new(ft0, ft8),
            Point2::new(ft12, ft8),
        );
        bed.system = ElementId::from_str("system-wall-interior-1");
        let mut front = Wall::new("wall-front", "Front wall", one_foot, &defaults).with_placement(
            "level-1",
            Point2::new(ft0, ft0),
            Point2::new(ft24, ft0),
        );
        front.openings.push(
            Opening::door("opening-front-door", "Front door", ft6, Length::from_whole_inches(36), Length::from_whole_inches(80)),
        );
        let left = Wall::new("wall-left", "Left wall", one_foot, &defaults).with_placement(
            "level-1",
            Point2::new(ft0, ft16),
            Point2::new(ft0, ft0),
        );
        let mut mid = Wall::new("wall-mid", "Center partition", one_foot, &defaults).with_placement(
            "level-1",
            Point2::new(ft12, ft0),
            Point2::new(ft12, ft16),
        );
        mid.system = ElementId::from_str("system-wall-interior-1");
        let right = Wall::new("wall-right", "Right wall", one_foot, &defaults).with_placement(
            "level-1",
            Point2::new(ft24, ft0),
            Point2::new(ft24, ft16),
        );
        let mut walls: Vec<Wall> = Vec::new();
        walls.push(back);
        walls.push(bed);
        walls.push(front);
        walls.push(left);
        walls.push(mid);
        walls.push(right);
        let mut joins: Vec<WallJoin> = Vec::new();
        joins.push(WallJoin::corner("join-back-left", "Back left corner", "wall-back", "wall-left", Point2::new(ft0, ft16)));
        joins.push(WallJoin::new("join-bed-left", "Bedroom partition at left", WallJoinKind::Tee, "wall-left", "wall-bed", Point2::new(ft0, ft8)));
        joins.push(WallJoin::new("join-bed-mid", "Bedroom partition at center", WallJoinKind::Tee, "wall-mid", "wall-bed", Point2::new(ft12, ft8)));
        joins.push(WallJoin::corner("join-front-right", "Front right corner", "wall-front", "wall-right", Point2::new(ft24, ft0)));
        joins.push(WallJoin::corner("join-left-front", "Left front corner", "wall-left", "wall-front", Point2::new(ft0, ft0)));
        joins.push(WallJoin::new("join-mid-back", "Center partition at back", WallJoinKind::Tee, "wall-back", "wall-mid", Point2::new(ft12, ft16)));
        joins.push(WallJoin::new("join-mid-front", "Center partition at front", WallJoinKind::Tee, "wall-front", "wall-mid", Point2::new(ft12, ft0)));
        joins.push(WallJoin::corner("join-right-back", "Right back corner", "wall-right", "wall-back", Point2::new(ft24, ft16)));
        let mut rooms: Vec<Room> = Vec::new();
        rooms.push(Room::new("room-bed-1", "Bedroom 1", RoomUsage::Bedroom, "level-1", Point2::new(ft6, ft4)));
        rooms.push(Room::new("room-bed-2", "Bedroom 2", RoomUsage::Bedroom, "level-1", Point2::new(ft6, ft12)));
        rooms.push(Room::new("room-living", "Living", RoomUsage::Living, "level-1", Point2::new(ft18, ft8)));
        let mut model = model_with(starter, walls, joins, rooms);
        sort_by_key(&mut model.materials);
        sort_by_key(&mut model.systems);
        proof {
            reveal_strlit("wall-back");
            reveal_strlit("wall-bed");
            reveal_strlit("wall-front");
            reveal_strlit("wall-left");
            reveal_strlit("wall-mid");
            reveal_strlit("wall-right");
            reveal_strlit("join-back-left");
            reveal_strlit("join-bed-left");
            reveal_strlit("join-bed-mid");
            reveal_strlit("join-front-right");
            reveal_strlit("join-left-front");
            reveal_strlit("join-mid-back");
            reveal_strlit("join-mid-front");
            reveal_strlit("join-right-back");
            reveal_strlit("room-bed-1");
            reveal_strlit("room-bed-2");
            reveal_strlit("room-living");
            let ws = model.walls@;
            assert forall|a: int, b: int| 0 <= a < b < ws.len() implies crate::text::seq_le(#[trigger] ws[a].key(), #[trigger] ws[b].key()) by {
                if a == 0 && b == 1 {
                    lemma_keys_rise(ws[a], ws[b], 6);
                } else {
                    lemma_keys_rise(ws[a], ws[b], 5);
                }
            }
            let js = model.wall_joins@;
            assert forall|a: int, b: int| 0 <= a < b < js.len() implies crate::text::seq_le(#[trigger] js[a].key(), #[trigger] js[b].key()) by {
                if a == 0 && (b == 1 || b == 2) {
                    lemma_keys_rise(js[a], js[b], 6);
                } else if (a == 1 && b == 2) || (a == 5 && b == 6) {
                    lemma_keys_rise(js[a], js[b], 9);
                } else {
                    lemma_keys_rise(js[a], js[b], 5);
                }
            }
            let rs = model.rooms@;
            assert forall|a: int, b: int| 0 <= a < b < rs.len() implies crate::text::seq_le(#[trigger] rs[a].key(), #[trigger] rs[b].key()) by {
                if a == 0 && b == 1 {
                    lemma_keys_rise(rs[a], rs[b], 9);
                } else {
                    lemma_keys_rise(rs[a], rs[b], 5);
                }
            }
            assert(sorted_by_key(model.walls@[2].openings@));
            assert(walls_inner_sorted(model.walls@));
            assert(sorted_by_key(model.levels@));
            assert(sorted_by_key(model.standards_packs@));
            if demo_catalog_ok(starter, two_bedroom_own_ids(), seq!["system-wall-exterior-1"@, "system-wall-interior-1"@]) {
                assert(demo_frame(model, starter));
                lemma_two_bedroom_valid(model, starter);
            }
        }
        model
    }

    /// The seeded material catalog and construction systems of a new project,
    /// each sorted by id.
    pub fn starter_library(starter: Library) -> (r: (Vec<Material>, Vec<ConstructionSystem>))
        ensures
            sorted_by_key(r.0@),
            sorted_by_key(r.1@),
            r.0@.to_multiset() == starter.materials@.to_multiset(),
            r.1@.to_multiset() == starter.systems@.to_multiset(),
    {
        let library = starter.into_deterministic();
        (library.materials, library.systems)
    }

    /// Solves every wall's driving dimensions; whether any wall changed.
    pub fn apply_driving_dimensions(&mut self) -> (r: bool)
        requires
            forall|i: int| 0 <= i < old(self).walls@.len() ==> driving_values_fit((#[trigger] old(self).walls@[i]).dimensions@),
        ensures
            final(self).walls@.len() == old(self).walls@.len(),
            r <==> exists|i: int| 0 <= i < old(self).walls@.len() && geometry_changed(
                #[trigger] old(self).walls@[i],
                final(self).walls@[i],
            ),
            forall|i: int| 0 <= i < old(self).walls@.len() ==> same_identity(#[trigger] old(self).walls@[i], final(self).walls@[i]),
            forall|i: int| 0 <= i < old(self).walls@.len() && geometry_changed(#[trigger] old(self).walls@[i], final(self).walls@[i])
                ==> wall_geometry_sound(final(self).walls@[i]),
            forall|i: int| 0 <= i < old(self).walls@.len() ==> driving_outcome(#[trigger] old(self).walls@[i], final(self).walls@[i]),
            *final(self) == (BuildingModel { walls: final(self).walls, ..*old(self) }),
    {
        let mut rest: Vec<Wall> = Vec::new();
        std::mem::swap(&mut rest, &mut self.walls);
        let ghost all = rest@;
        let n = rest.len();
        let mut out: Vec<Wall> = Vec::new();
        let mut changed = false;
        while rest.len() > 0
            invariant
                n == all.len(),
                rest@.len() + out@.len() == n,
                rest@ == all.subrange(out@.len() as int, n as int),
                forall|i: int| 0 <= i < n ==> driving_values_fit((#[trigger] all[i]).dimensions@),
                forall|i: int| 0 <= i < out@.len() ==> same_identity(#[trigger] all[i], out@[i]),
                forall|i: int| 0 <= i < out@.len() && geometry_changed(#[trigger] all[i], out@[i]) ==> wall_geometry_sound(out@[i]),
                forall|i: int| 0 <= i < out@.len() ==> driving_outcome(#[trigger] all[i], out@[i]),
                changed <==> exists|i: int| 0 <= i < out@.len() && geometry_changed(#[trigger] all[i], out@[i]),
            decreases rest@.len(),
        {
            let ghost k = out@.len() as int;
            let mut wall = rest.remove(0);
            assert(wall == all[k]);
            let moved = wall.apply_driving_dimensions();
            if moved {
                changed = true;
            }
            out.push(wall);
            assert(rest@ =~= all.subrange(out@.len() as int, n as int));
            assert(out@[k] == wall);
        }
        self.walls = out;
        changed
    }
}

// ---------------------------------------------------------------------------
// Model validation
// ---------------------------------------------------------------------------

/// A level with id `id` exists.
pub open spec fn level_known(m: BuildingModel, id: Seq<char>) -> bool {
    key_index(m.levels@, id) >= 0
}

/// A system with id `id` exists, and the first such has kind `kind`.
pub open spec fn system_of_kind(m: BuildingModel, id: Seq<char>, kind: SystemKind) -> bool {
    key_index(m.systems@, id) >= 0 && m.systems@[key_index(m.systems@, id)].kind == kind
}

/// A bracing panel lies within its wall.
pub open spec fn panel_ok(w: Wall, p: BracedPanel) -> bool {
    &&& valid_id(p.id@)
    &&& p.length.ticks > 0
    &&& p.offset.ticks >= 0
    &&& p.offset.ticks + p.length.ticks <= w.length.ticks
}

/// A wall is valid, on a known level, on a wall system, with panels inside it.
pub open spec fn wall_ok(m: BuildingModel, w: Wall) -> bool {
    &&& wall_valid(w)
    &&& level_known(m, w.level@)
    &&& system_of_kind(m, w.system@, SystemKind::Wall)
    &&& forall|k: int| 0 <= k < w.bracing@.len() ==> panel_ok(w, #[trigger] w.bracing@[k])
}

/// `p` is on the wall's segment but not one of its ends.
pub open spec fn on_interior(w: Wall, p: Point2) -> bool {
    on_wall_segment(w, p) && !(w.start == p || w.end == p)
}

/// The join point connects the two walls as its kind says.
pub open spec fn join_connects(kind: WallJoinKind, a: Wall, b: Wall, p: Point2) -> bool {
    match kind {
        WallJoinKind::Corner | WallJoinKind::EndToEnd => (a.start == p || a.end == p) && (b.start == p || b.end == p),
        WallJoinKind::Tee => ((a.start == p || a.end == p) && on_interior(b, p)) || ((b.start == p || b.end == p) && on_interior(a, p)),
        WallJoinKind::Cross => on_interior(a, p) && on_interior(b, p),
    }
}

/// A join references two existing walls that it connects.
pub open spec fn join_ok(m: BuildingModel, j: WallJoin) -> bool {
    let a = key_index(m.walls@, j.first_wall@);
    let b = key_index(m.walls@, j.second_wall@);
    &&& valid_id(j.id@) && valid_id(j.first_wall@) && valid_id(j.second_wall@)
    &&& j.first_wall@ != j.second_wall@
    &&& a >= 0 && b >= 0
    &&& join_connects(j.kind, m.walls@[a], m.walls@[b], j.point)
}

/// Two roof planes have an edge in common (either direction).
pub open spec fn roofs_share_edge(a: RoofPlane, b: RoofPlane) -> bool {
    let n = a.outline@.len() as int;
    let k = b.outline@.len() as int;
    exists|e: int, f: int|
        #![trigger a.outline@[e], b.outline@[f]]
        0 <= e < n && 0 <= f < k && ((a.outline@[e] == b.outline@[f] && a.outline@[(e + 1) % n] == b.outline@[(f + 1) % k])
            || (a.outline@[e] == b.outline@[(f + 1) % k] && a.outline@[(e + 1) % n] == b.outline@[f]))
}

/// A ceiling is on a known level and a ceiling system, with a valid region and a sound slope.
pub open spec fn ceiling_ok(m: BuildingModel, c: Ceiling) -> bool {
    &&& valid_id(c.id@)
    &&& level_known(m, c.level@)
    &&& system_of_kind(m, c.system@, SystemKind::Ceiling)
    &&& region_valid(c.region, m.rooms@.map_values(|r: Room| r.id@))
    &&& (c.slope matches Some(s) ==> (c.region matches SurfaceRegion::Polygon(points) && (s.low_edge as int) < points@.len())
        && s.pitch.run.ticks > 0)
}

/// A floor deck is on a known level and a floor system, with a valid region.
pub open spec fn deck_ok(m: BuildingModel, d: FloorDeck) -> bool {
    &&& valid_id(d.id@)
    &&& level_known(m, d.level@)
    &&& system_of_kind(m, d.system@, SystemKind::Floor)
    &&& region_valid(d.region, m.rooms@.map_values(|r: Room| r.id@))
}

/// Rearranging records rearranges their keys.
pub(crate) proof fn lemma_keys_rearranged<T: Keyed>(a: Seq<T>, b: Seq<T>)
    requires
        a.to_multiset() == b.to_multiset(),
    ensures
        keys_of(a).to_multiset() == keys_of(b).to_multiset(),
    decreases a.len(),
{
    broadcast use vstd::seq_lib::group_to_multiset_ensures;
    broadcast use vstd::multiset::group_multiset_axioms;

    a.to_multiset_ensures();
    b.to_multiset_ensures();
    if a.len() == 0 {
        assert(b.len() == 0);
        assert(keys_of(a) =~= Seq::<Seq<char>>::empty());
        assert(keys_of(b) =~= Seq::<Seq<char>>::empty());
    } else {
        let x = a.last();
        let a2 = a.drop_last();
        assert(a =~= a2.push(x));
        assert(a.contains(x)) by {
            assert(a[a.len() - 1] == x);
        }
        assert(a.to_multiset().count(x) > 0);
        assert(b.to_multiset().count(x) > 0);
        assert(b.contains(x));
        let j = choose|j: int| 0 <= j < b.len() && b[j] == x;
        let b2 = b.remove(j);
        assert(a2.to_multiset() =~= a.to_multiset().remove(x));
        assert(b2.to_multiset() =~= b.to_multiset().remove(x));
        lemma_keys_rearranged(a2, b2);
        assert(keys_of(a) =~= keys_of(a2).push(x.key()));
        assert(keys_of(b2) =~= keys_of(b).remove(j));
        keys_of(b).to_multiset_ensures();
        assert(keys_of(b)[j] == x.key());
        assert(keys_of(b2).to_multiset() =~= keys_of(b).to_multiset().remove(x.key()));
        assert(keys_of(b).contains(x.key()));
        assert(keys_of(b).to_multiset() =~= keys_of(b2).to_multiset().insert(x.key()));
        assert(keys_of(a).to_multiset() =~= keys_of(a2).to_multiset().insert(x.key()));
    }
}

/// A rearrangement of a list without duplicates has none.
pub(crate) proof fn lemma_no_duplicates_rearranged<A>(s: Seq<A>, t: Seq<A>)
    requires
        s.no_duplicates(),
        s.to_multiset() == t.to_multiset(),
    ensures
        t.no_duplicates(),
{
    s.lemma_multiset_has_no_duplicates();
    t.lemma_multiset_has_no_duplicates_conv();
}

/// The ids a wall brings: its own, then those of its openings, dimensions and
/// bracing panels.
pub open spec fn wall_own_ids(w: Wall) -> Seq<Seq<char>> {
    seq![w.id@] + keys_of(w.openings@) + keys_of(w.dimensions@) + keys_of(w.bracing@)
}

/// The ids the walls bring, wall by wall.
pub open spec fn walls_ids(ws: Seq<Wall>) -> Seq<Seq<char>>
    decreases ws.len(),
{
    if ws.len() == 0 {
        Seq::empty()
    } else {
        walls_ids(ws.drop_last()) + wall_own_ids(ws.last())
    }
}

/// The ids a roof plane brings: its own, then those of its openings.
pub open spec fn roof_own_ids(r: RoofPlane) -> Seq<Seq<char>> {
    seq![r.id@] + keys_of(r.openings@)
}

/// The ids the roof planes bring, plane by plane.
pub open spec fn roofs_ids(rs: Seq<RoofPlane>) -> Seq<Seq<char>>
    decreases rs.len(),
{
    if rs.len() == 0 {
        Seq::empty()
    } else {
        roofs_ids(rs.drop_last()) + roof_own_ids(rs.last())
    }
}

/// Every element id of the model: levels, standards packs, materials, systems,
/// object families, walls (with their openings, dimensions and panels), joins,
/// placed objects, braced wall lines, rooms, roof planes (with their openings),
/// ceilings and floor decks. They share one namespace.
pub open spec fn model_ids(m: BuildingModel) -> Seq<Seq<char>> {
    keys_of(m.levels@) + keys_of(m.standards_packs@) + keys_of(m.materials@) + keys_of(m.systems@) + keys_of(
        m.furnishings@,
    ) + keys_of(m.mep_objects@) + walls_ids(m.walls@) + keys_of(m.wall_joins@) + keys_of(m.furnishing_instances@)
        + keys_of(m.mep_instances@) + keys_of(m.braced_wall_lines@) + keys_of(m.rooms@) + roofs_ids(m.roof_planes@)
        + keys_of(m.ceilings@) + keys_of(m.floor_decks@)
}

/// Appending an id not yet present keeps a list free of duplicates.
proof fn lemma_push_distinct(s: Seq<Seq<char>>, x: Seq<char>)
    requires
        s.no_duplicates(),
        !s.contains(x),
    ensures
        s.push(x).no_duplicates(),
{
    assert forall|i: int, j: int| 0 <= i < s.push(x).len() && 0 <= j < s.push(x).len() && i != j implies s.push(x)[i]
        != s.push(x)[j] by {
        if i < s.len() && j == s.len() {
            assert(s.contains(s[i]));
        }
        if j < s.len() && i == s.len() {
            assert(s.contains(s[j]));
        }
    }
}

/// Recording the `i`-th record's id, which was not yet present.
proof fn lemma_record_key<T: Keyed>(prev: Seq<Seq<char>>, items: Seq<T>, i: int, before: Seq<ElementId>, id: ElementId)
    requires
        0 <= i < items.len(),
        id_views(before) == prev + keys_of(items.take(i)),
        id_views(before).no_duplicates(),
        !id_views(before).contains(id@),
        id@ == items[i].key(),
    ensures
        id_views(before.push(id)) == prev + keys_of(items.take(i + 1)),
        id_views(before.push(id)).no_duplicates(),
{
    lemma_id_views_push(before, id);
    assert(keys_of(items.take(i + 1)) =~= keys_of(items.take(i)).push(items[i].key()));
    assert(prev + keys_of(items.take(i + 1)) =~= (prev + keys_of(items.take(i))).push(id@));
    lemma_push_distinct(id_views(before), id@);
}

/// Recording a single id that was not yet present.
proof fn lemma_record_one(before: Seq<ElementId>, id: ElementId)
    requires
        id_views(before).no_duplicates(),
        !id_views(before).contains(id@),
    ensures
        id_views(before.push(id)) == id_views(before).push(id@),
        id_views(before.push(id)).no_duplicates(),
{
    lemma_id_views_push(before, id);
    lemma_push_distinct(id_views(before), id@);
}

/// The whole list of records once every one has been recorded.
proof fn lemma_all_taken<T: Keyed>(items: Seq<T>)
    ensures
        keys_of(items.take(items.len() as int)) == keys_of(items),
{
    assert(items.take(items.len() as int) =~= items);
}

/// Two lists free of duplicates with nothing in common join into one.
proof fn lemma_concat_distinct(a: Seq<Seq<char>>, b: Seq<Seq<char>>)
    requires
        a.no_duplicates(),
        b.no_duplicates(),
        forall|k: int| 0 <= k < b.len() ==> !a.contains(#[trigger] b[k]),
    ensures
        (a + b).no_duplicates(),
{
    assert forall|i: int, j: int| 0 <= i < (a + b).len() && 0 <= j < (a + b).len() && i != j implies (a + b)[i] != (a
        + b)[j] by {
        if i < a.len() && j >= a.len() {
            assert(b[j - a.len()] == (a + b)[j]);
            assert(a.contains(a[i]));
        }
        if j < a.len() && i >= a.len() {
            assert(b[i - a.len()] == (a + b)[i]);
            assert(a.contains(a[j]));
        }
    }
}

/// One more wall's ids.
proof fn lemma_walls_ids_step(ws: Seq<Wall>, i: int)
    requires
        0 <= i < ws.len(),
    ensures
        walls_ids(ws.take(i + 1)) == walls_ids(ws.take(i)) + wall_own_ids(ws[i]),
{
    assert(ws.take(i + 1).drop_last() =~= ws.take(i));
}

/// One more roof plane's ids.
proof fn lemma_roofs_ids_step(rs: Seq<RoofPlane>, i: int)
    requires
        0 <= i < rs.len(),
    ensures
        roofs_ids(rs.take(i + 1)) == roofs_ids(rs.take(i)) + roof_own_ids(rs[i]),
{
    assert(rs.take(i + 1).drop_last() =~= rs.take(i));
}

/// A record found by its key carries that key.
proof fn lemma_key_found<T: Keyed>(s: Seq<T>, k: Seq<char>)
    requires
        key_index(s, k) >= 0,
    ensures
        key_index(s, k) < s.len(),
        s[key_index(s, k)].key() == k,
    decreases s.len(),
{
    if s.len() > 0 && s[0].key() != k {
        lemma_key_found(s.drop_first(), k);
    }
}

/// An item of a list without duplicates is not among the items before it.
proof fn lemma_fresh_in_prefix(whole: Seq<Seq<char>>, s: Seq<Seq<char>>, t: Seq<Seq<char>>, k: int)
    requires
        whole.no_duplicates(),
        (s + t).is_prefix_of(whole),
        0 <= k < t.len(),
    ensures
        !(s + t.take(k)).contains(t[k]),
{
    let u = s + t.take(k);
    if u.contains(t[k]) {
        let j = choose|j: int| 0 <= j < u.len() && u[j] == t[k];
        assert(whole[j] == (s + t)[j]);
        assert(whole[s.len() + k] == (s + t)[s.len() + k]);
        assert(j != s.len() + k);
    }
}

/// The next record's key is not among the keys recorded before it.
proof fn lemma_next_key_fresh<T: Keyed>(whole: Seq<Seq<char>>, prev: Seq<Seq<char>>, items: Seq<T>, i: int)
    requires
        whole.no_duplicates(),
        (prev + keys_of(items)).is_prefix_of(whole),
        0 <= i < items.len(),
    ensures
        !(prev + keys_of(items.take(i))).contains(items[i].key()),
{
    assert(keys_of(items).take(i) =~= keys_of(items.take(i)));
    lemma_fresh_in_prefix(whole, prev, keys_of(items), i);
}

/// A prefix of a concatenation's left part is a prefix of the whole.
proof fn lemma_prefix_of_left(a: Seq<Seq<char>>, b: Seq<Seq<char>>, w: Seq<Seq<char>>)
    requires
        (a + b).is_prefix_of(w),
    ensures
        a.is_prefix_of(w),
{
    assert(a =~= w.subrange(0, a.len() as int)) by {
        assert forall|j: int| 0 <= j < a.len() implies a[j] == w.subrange(0, a.len() as int)[j] by {
            assert((a + b)[j] == w[j]);
        }
    }
}

/// Each group of ids, with all groups before it, begins the model's ids.
proof fn lemma_model_id_groups(m: BuildingModel)
    ensures
        ({
            let s1 = keys_of(m.levels@);
            let s2 = s1 + keys_of(m.standards_packs@);
            let s3 = s2 + keys_of(m.materials@);
            let s4 = s3 + keys_of(m.systems@);
            let s5 = s4 + keys_of(m.furnishings@);
            let s6 = s5 + keys_of(m.mep_objects@);
            let s7 = s6 + walls_ids(m.walls@);
            let s8 = s7 + keys_of(m.wall_joins@);
            let s9 = s8 + keys_of(m.furnishing_instances@);
            let s10 = s9 + keys_of(m.mep_instances@);
            let s11 = s10 + keys_of(m.braced_wall_lines@);
            let s12 = s11 + keys_of(m.rooms@);
            let s13 = s12 + roofs_ids(m.roof_planes@);
            let s14 = s13 + keys_of(m.ceilings@);
            let w = model_ids(m);
            &&& (Seq::<Seq<char>>::empty() + s1).is_prefix_of(w)
            &&& s2.is_prefix_of(w) &&& s3.is_prefix_of(w) &&& s4.is_prefix_of(w) &&& s5.is_prefix_of(w)
            &&& s6.is_prefix_of(w) &&& s7.is_prefix_of(w) &&& s8.is_prefix_of(w) &&& s9.is_prefix_of(w)
            &&& s10.is_prefix_of(w) &&& s11.is_prefix_of(w) &&& s12.is_prefix_of(w) &&& s13.is_prefix_of(w)
            &&& s14.is_prefix_of(w) &&& (s14 + keys_of(m.floor_decks@)).is_prefix_of(w)
        }),
{
    let s1 = keys_of(m.levels@);
    let s2 = s1 + keys_of(m.standards_packs@);
    let s3 = s2 + keys_of(m.materials@);
    let s4 = s3 + keys_of(m.systems@);
    let s5 = s4 + keys_of(m.furnishings@);
    let s6 = s5 + keys_of(m.mep_objects@);
    let s7 = s6 + walls_ids(m.walls@);
    let s8 = s7 + keys_of(m.wall_joins@);
    let s9 = s8 + keys_of(m.furnishing_instances@);
    let s10 = s9 + keys_of(m.mep_instances@);
    let s11 = s10 + keys_of(m.braced_wall_lines@);
    let s12 = s11 + keys_of(m.rooms@);
    let s13 = s12 + roofs_ids(m.roof_planes@);
    let s14 = s13 + keys_of(m.ceilings@);
    let w = model_ids(m);
    assert(w.subrange(0, w.len() as int) =~= w);
    lemma_prefix_of_left(s14, keys_of(m.floor_decks@), w);
    lemma_prefix_of_left(s13, keys_of(m.ceilings@), w);
    lemma_prefix_of_left(s12, roofs_ids(m.roof_planes@), w);
    lemma_prefix_of_left(s11, keys_of(m.rooms@), w);
    lemma_prefix_of_left(s10, keys_of(m.braced_wall_lines@), w);
    lemma_prefix_of_left(s9, keys_of(m.mep_instances@), w);
    lemma_prefix_of_left(s8, keys_of(m.furnishing_instances@), w);
    lemma_prefix_of_left(s7, keys_of(m.wall_joins@), w);
    lemma_prefix_of_left(s6, walls_ids(m.walls@), w);
    lemma_prefix_of_left(s5, keys_of(m.mep_objects@), w);
    lemma_prefix_of_left(s4, keys_of(m.furnishings@), w);
    lemma_prefix_of_left(s3, keys_of(m.systems@), w);
    lemma_prefix_of_left(s2, keys_of(m.materials@), w);
    assert(Seq::<Seq<char>>::empty() + s1 =~= s1);
    lemma_prefix_of_left(s1, keys_of(m.standards_packs@), w);
}

/// The walls up to `j` bring a prefix of the ids all the walls bring.
proof fn lemma_walls_ids_prefix(ws: Seq<Wall>, j: int)
    requires
        0 <= j <= ws.len(),
    ensures
        walls_ids(ws.take(j)).is_prefix_of(walls_ids(ws)),
    decreases ws.len() - j,
{
    if j == ws.len() {
        assert(ws.take(j) =~= ws);
        assert(walls_ids(ws).subrange(0, walls_ids(ws).len() as int) =~= walls_ids(ws));
    } else {
        lemma_walls_ids_prefix(ws, j + 1);
        lemma_walls_ids_step(ws, j);
        lemma_prefix_of_left(walls_ids(ws.take(j)), wall_own_ids(ws[j]), walls_ids(ws));
    }
}

/// The roof planes up to `j` bring a prefix of the ids all of them bring.
proof fn lemma_roofs_ids_prefix(rs: Seq<RoofPlane>, j: int)
    requires
        0 <= j <= rs.len(),
    ensures
        roofs_ids(rs.take(j)).is_prefix_of(roofs_ids(rs)),
    decreases rs.len() - j,
{
    if j == rs.len() {
        assert(rs.take(j) =~= rs);
        assert(roofs_ids(rs).subrange(0, roofs_ids(rs).len() as int) =~= roofs_ids(rs));
    } else {
        lemma_roofs_ids_prefix(rs, j + 1);
        lemma_roofs_ids_step(rs, j);
        lemma_prefix_of_left(roofs_ids(rs.take(j)), roof_own_ids(rs[j]), roofs_ids(rs));
    }
}

/// A prefix of `x`, behind the same front, is a prefix of it behind that front.
proof fn lemma_prefix_behind(p: Seq<Seq<char>>, a: Seq<Seq<char>>, b: Seq<Seq<char>>, w: Seq<Seq<char>>)
    requires
        a.is_prefix_of(b),
        (p + b).is_prefix_of(w),
    ensures
        (p + a).is_prefix_of(w),
{
    assert(p + b =~= (p + a) + b.subrange(a.len() as int, b.len() as int));
    lemma_prefix_of_left(p + a, b.subrange(a.len() as int, b.len() as int), w);
}

/// The levels pass their checks: at least one, with valid ids that differ.
pub open spec fn levels_pass(m: BuildingModel) -> bool {
    &&& m.levels@.len() > 0
    &&& forall|t: int| 0 <= t < m.levels@.len() ==> valid_id((#[trigger] m.levels@[t]).id@)
    &&& keys_of(m.levels@).no_duplicates()
}

/// The first `n` standards packs pass their checks: valid packs whose ids are
/// valid and differ from each other and from the levels'.
pub open spec fn packs_pass(m: BuildingModel, n: int) -> bool {
    &&& forall|t: int| 0 <= t < n ==> valid_id((#[trigger] m.standards_packs@[t]).id@) && pack_valid(m.standards_packs@[t])
    &&& (keys_of(m.levels@) + keys_of(m.standards_packs@.take(n))).no_duplicates()
}

/// The first `n` entries of the standards stack pass their checks: valid ids,
/// each naming a pack, no two the same.
pub open spec fn stack_passes(m: BuildingModel, n: int) -> bool {
    &&& forall|t: int| 0 <= t < n ==> valid_id((#[trigger] m.standards@[t])@) && key_index(m.standards_packs@, m.standards@[t]@) >= 0
    &&& forall|a: int, b: int| 0 <= a < b < n ==> m.standards@[a]@ != m.standards@[b]@
}

/// The `i`-th standards pack is the first to reuse an id: what is checked before
/// it passes, and its own id is valid but already taken.
pub open spec fn pack_id_repeats(m: BuildingModel, i: int) -> bool {
    &&& 0 <= i < m.standards_packs@.len()
    &&& levels_pass(m)
    &&& packs_pass(m, i)
    &&& valid_id(m.standards_packs@[i].id@)
    &&& (keys_of(m.levels@) + keys_of(m.standards_packs@.take(i))).contains(m.standards_packs@[i].id@)
}

/// The `i`-th entry of the standards stack is the first to repeat an earlier one:
/// the levels, the packs and the entries before it pass, and its id is valid.
pub open spec fn stack_entry_repeats(m: BuildingModel, i: int) -> bool {
    &&& 0 <= i < m.standards@.len()
    &&& levels_pass(m)
    &&& packs_pass(m, m.standards_packs@.len() as int)
    &&& stack_passes(m, i)
    &&& valid_id(m.standards@[i]@)
    &&& exists|a: int| 0 <= a < i && m.standards@[a]@ == m.standards@[i]@
}

/// Neither a pack nor a stack entry repeats an id in the way above.
pub open spec fn front_clear(m: BuildingModel) -> bool {
    &&& forall|i: int| !#[trigger] pack_id_repeats(m, i)
    &&& forall|i: int| !#[trigger] stack_entry_repeats(m, i)
}

/// No wall carries a driving dimension that becomes a constraint; walls that
/// do are checked by solving their dimensions.
/// Every wall's dimensions are small enough for the exact over-constraint
/// check (see [`dimensions_decidable`]).
pub open spec fn walls_decidable(m: BuildingModel) -> bool {
    forall|i: int| 0 <= i < m.walls@.len() ==> dimensions_decidable(#[trigger] m.walls@[i])
}

pub open spec fn no_solved_dimensions(m: BuildingModel) -> bool {
    forall|i: int, j: int|
        #![trigger m.walls@[i].dimensions@[j]]
        0 <= i < m.walls@.len() && 0 <= j < m.walls@[i].dimensions@.len() ==> !dim_constructible(
            m.walls@[i],
            m.walls@[i].dimensions@[j],
        )
}

/// A roof plane's openings have valid ids and positive sizes.
pub open spec fn roof_openings_sound(r: RoofPlane) -> bool {
    forall|k: int| 0 <= k < r.openings@.len() ==> valid_id((#[trigger] r.openings@[k]).id@) && r.openings@[k].width.ticks > 0
        && r.openings@[k].height.ticks > 0
}

/// The first record with key `k` is at `q` when none before it has that key.
proof fn lemma_key_index_at<T: Keyed>(s: Seq<T>, k: Seq<char>, q: int)
    requires
        0 <= q < s.len(),
        s[q].key() == k,
        forall|j: int| 0 <= j < q ==> (#[trigger] s[j]).key() != k,
    ensures
        key_index(s, k) == q,
    decreases q,
{
    if q > 0 {
        let t = s.drop_first();
        assert forall|j: int| 0 <= j < q - 1 implies (#[trigger] t[j]).key() != k by {
            assert(t[j] == s[j + 1]);
        }
        lemma_key_index_at(t, k, q - 1);
    }
}

/// In a rearrangement with distinct keys, looking a key up finds the same record.
pub(crate) proof fn lemma_key_lookup_rearranged<T: Keyed>(a: Seq<T>, b: Seq<T>, k: Seq<char>)
    requires
        a.to_multiset() == b.to_multiset(),
        keys_of(b).no_duplicates(),
        key_index(a, k) >= 0,
    ensures
        key_index(b, k) >= 0,
        b[key_index(b, k)] == a[key_index(a, k)],
{
    broadcast use vstd::seq_lib::group_to_multiset_ensures;

    a.to_multiset_ensures();
    b.to_multiset_ensures();
    lemma_key_found(a, k);
    let e = a[key_index(a, k)];
    assert(a.contains(e));
    assert(a.to_multiset().count(e) > 0);
    assert(b.contains(e));
    let q = choose|q: int| 0 <= q < b.len() && b[q] == e;
    assert forall|j: int| 0 <= j < q implies (#[trigger] b[j]).key() != k by {
        assert(keys_of(b)[j] == b[j].key() && keys_of(b)[q] == b[q].key());
    }
    lemma_key_index_at(b, k, q);
}

/// Lists with the same multiset hold the same elements.
proof fn lemma_contains_rearranged<A>(a: Seq<A>, b: Seq<A>, x: A)
    requires
        a.to_multiset() == b.to_multiset(),
    ensures
        a.contains(x) <==> b.contains(x),
{
    a.to_multiset_ensures();
    b.to_multiset_ensures();
    assert(a.contains(x) <==> a.to_multiset().count(x) > 0);
    assert(b.contains(x) <==> b.to_multiset().count(x) > 0);
}

/// The middle of a list without duplicates has none.
proof fn lemma_no_duplicates_middle(a: Seq<Seq<char>>, b: Seq<Seq<char>>, c: Seq<Seq<char>>)
    requires
        (a + b + c).no_duplicates(),
    ensures
        b.no_duplicates(),
{
    assert forall|i: int, j: int| 0 <= i < b.len() && 0 <= j < b.len() && i != j implies b[i] != b[j] by {
        assert((a + b + c)[a.len() + i] == b[i]);
        assert((a + b + c)[a.len() + j] == b[j]);
    }
}

/// The ids after the catalog: object families onward.
pub open spec fn ids_after_catalog(m: BuildingModel) -> Seq<Seq<char>> {
    keys_of(m.furnishings@) + keys_of(m.mep_objects@) + walls_ids(m.walls@) + keys_of(m.wall_joins@) + keys_of(
        m.furnishing_instances@,
    ) + keys_of(m.mep_instances@) + keys_of(m.braced_wall_lines@) + keys_of(m.rooms@) + roofs_ids(m.roof_planes@)
        + keys_of(m.ceilings@) + keys_of(m.floor_decks@)
}

/// The model's ids: levels and packs, then the catalog, then the rest.
proof fn lemma_model_ids_split(m: BuildingModel)
    ensures
        model_ids(m) == (keys_of(m.levels@) + keys_of(m.standards_packs@)) + (keys_of(m.materials@) + keys_of(m.systems@))
            + ids_after_catalog(m),
{
    assert(model_ids(m) =~= (keys_of(m.levels@) + keys_of(m.standards_packs@)) + (keys_of(m.materials@) + keys_of(
        m.systems@,
    )) + ids_after_catalog(m));
}

/// Validity does not depend on the order of the materials and systems.
pub proof fn lemma_catalog_order_irrelevant(m: BuildingModel, m2: BuildingModel)
    requires
        model_valid(m),
        m2.materials@.to_multiset() == m.materials@.to_multiset(),
        m2.systems@.to_multiset() == m.systems@.to_multiset(),
        m2 == (BuildingModel { materials: m2.materials, systems: m2.systems, ..m }),
    ensures
        model_valid(m2),
{
    broadcast use vstd::seq_lib::lemma_multiset_commutative;

    let front = keys_of(m.levels@) + keys_of(m.standards_packs@);
    let cat = keys_of(m.materials@) + keys_of(m.systems@);
    let cat2 = keys_of(m2.materials@) + keys_of(m2.systems@);
    lemma_model_ids_split(m);
    lemma_model_ids_split(m2);
    assert(ids_after_catalog(m2) == ids_after_catalog(m));
    lemma_keys_rearranged(m.materials@, m2.materials@);
    lemma_keys_rearranged(m.systems@, m2.systems@);
    assert(cat2.to_multiset() =~= cat.to_multiset());
    assert(model_ids(m2).to_multiset() =~= model_ids(m).to_multiset());
    lemma_no_duplicates_rearranged(model_ids(m), model_ids(m2));
    // The systems' keys are distinct.
    lemma_no_duplicates_middle(front, cat2, ids_after_catalog(m2));
    lemma_no_duplicates_middle(keys_of(m2.materials@), keys_of(m2.systems@), Seq::<Seq<char>>::empty());
    assert(keys_of(m2.materials@) + keys_of(m2.systems@) + Seq::<Seq<char>>::empty() =~= cat2);
    let mats = m.materials@.map_values(|x: Material| x.id@);
    let mats2 = m2.materials@.map_values(|x: Material| x.id@);
    assert(mats =~= keys_of(m.materials@));
    assert(mats2 =~= keys_of(m2.materials@));
    assert forall|k: Seq<char>| mats.contains(k) <==> mats2.contains(k) by {
        lemma_contains_rearranged(keys_of(m.materials@), keys_of(m2.materials@), k);
    }
    assert forall|i: int| 0 <= i < m2.materials@.len() implies valid_id((#[trigger] m2.materials@[i]).id@) && appearance_valid(
        m2.materials@[i].appearance,
    ) by {
        lemma_contains_rearranged(m2.materials@, m.materials@, m2.materials@[i]);
        assert(m2.materials@.contains(m2.materials@[i]));
        let j = choose|j: int| 0 <= j < m.materials@.len() && m.materials@[j] == m2.materials@[i];
    }
    assert forall|i: int| 0 <= i < m2.systems@.len() implies valid_id((#[trigger] m2.systems@[i]).id@) && system_layers_valid(
        m2.systems@[i],
        mats2,
    ) by {
        lemma_contains_rearranged(m2.systems@, m.systems@, m2.systems@[i]);
        assert(m2.systems@.contains(m2.systems@[i]));
        let j = choose|j: int| 0 <= j < m.systems@.len() && m.systems@[j] == m2.systems@[i];
        let sys = m.systems@[j];
        assert(system_layers_valid(sys, mats));
        assert forall|l: int| 0 <= l < sys.layers@.len() implies crate::system::layer_ok(#[trigger] sys.layers@[l], mats2) by {
            assert(crate::system::layer_ok(sys.layers@[l], mats));
            assert(mats.contains(sys.layers@[l].material@));
            if let Some(f) = sys.layers@[l].framing {
                if let Some(c) = f.cavity_material {
                    assert(mats.contains(c@));
                }
            }
        }
    }
    assert forall|i: int| 0 <= i < m2.walls@.len() implies wall_ok(m2, #[trigger] m2.walls@[i]) by {
        assert(wall_ok(m, m.walls@[i]));
        lemma_key_lookup_rearranged(m.systems@, m2.systems@, m2.walls@[i].system@);
    }
    assert forall|i: int| 0 <= i < m2.wall_joins@.len() implies join_ok(m2, #[trigger] m2.wall_joins@[i]) by {
        assert(join_ok(m, m.wall_joins@[i]));
    }
    assert forall|i: int| 0 <= i < m2.roof_planes@.len() implies ({
        let x = #[trigger] m2.roof_planes@[i];
        valid_id(x.id@) && level_known(m2, x.level@) && system_of_kind(m2, x.system@, SystemKind::Roof) && roof_geometry_valid(x)
            && roof_openings_sound(x)
    }) by {
        lemma_key_lookup_rearranged(m.systems@, m2.systems@, m2.roof_planes@[i].system@);
    }
    assert forall|i: int| 0 <= i < m2.ceilings@.len() implies ceiling_ok(m2, #[trigger] m2.ceilings@[i]) by {
        assert(ceiling_ok(m, m.ceilings@[i]));
        lemma_key_lookup_rearranged(m.systems@, m2.systems@, m2.ceilings@[i].system@);
    }
    assert forall|i: int| 0 <= i < m2.floor_decks@.len() implies deck_ok(m2, #[trigger] m2.floor_decks@[i]) by {
        assert(deck_ok(m, m.floor_decks@[i]));
        lemma_key_lookup_rearranged(m.systems@, m2.systems@, m2.floor_decks@[i].system@);
    }
}

/// The ids the shell demo adds to a starter catalog, in the model's order.
pub open spec fn shell_own_ids() -> Seq<Seq<char>> {
    seq![
        "level-1"@, "std-irc-2021"@,
        "wall-back"@, "opening-back-left-window"@, "opening-back-right-window"@,
        "wall-front"@, "opening-front-door"@, "opening-front-garage"@,
        "wall-left"@, "opening-left-service-door"@,
        "wall-right"@, "opening-right-window"@,
        "join-back-left"@, "join-front-right"@, "join-left-front"@, "join-right-back"@,
    ]
}

/// A starter catalog the demos can stand on: valid, with valid appearances, a
/// wall system of each id in `systems`, and no id the demo itself uses.
pub open spec fn demo_catalog_ok(starter: Library, own: Seq<Seq<char>>, systems: Seq<Seq<char>>) -> bool {
    &&& catalog_valid(starter.materials@, starter.systems@)
    &&& forall|i: int| 0 <= i < starter.materials@.len() ==> appearance_valid((#[trigger] starter.materials@[i]).appearance)
    &&& forall|k: int| 0 <= k < systems.len() ==> key_index(starter.systems@, #[trigger] systems[k]) >= 0
        && starter.systems@[key_index(starter.systems@, systems[k])].kind == SystemKind::Wall
    &&& forall|k: int| 0 <= k < starter_ids(starter).len() ==> !own.contains(#[trigger] starter_ids(starter)[k])
}

/// A model with one level, the default standards and the starter catalog
/// (possibly reordered), and nothing but walls, joins and rooms placed.
pub open spec fn demo_frame(r: BuildingModel, starter: Library) -> bool {
    &&& r.levels@.len() == 1
    &&& r.levels@[0].id@ == "level-1"@
    &&& r.standards@.len() == 1
    &&& r.standards@[0]@ == "std-irc-2021"@
    &&& r.standards_packs@.len() == 1
    &&& starter_pack(r.standards_packs@[0])
    &&& r.materials@.to_multiset() == starter.materials@.to_multiset()
    &&& r.systems@.to_multiset() == starter.systems@.to_multiset()
    &&& r.furnishings@.len() == 0
    &&& r.mep_objects@.len() == 0
    &&& r.furnishing_instances@.len() == 0
    &&& r.mep_instances@.len() == 0
    &&& r.braced_wall_lines@.len() == 0
    &&& r.roof_planes@.len() == 0
    &&& r.ceilings@.len() == 0
    &&& r.floor_decks@.len() == 0
}

/// The literal ids of the shell demo differ from each other.
proof fn lemma_shell_ids_distinct()
    ensures
        shell_own_ids().no_duplicates(),
{
    reveal_strlit("level-1");
    reveal_strlit("std-irc-2021");
    reveal_strlit("wall-back");
    reveal_strlit("opening-back-left-window");
    reveal_strlit("opening-back-right-window");
    reveal_strlit("wall-front");
    reveal_strlit("opening-front-door");
    reveal_strlit("opening-front-garage");
    reveal_strlit("wall-left");
    reveal_strlit("opening-left-service-door");
    reveal_strlit("wall-right");
    reveal_strlit("opening-right-window");
    reveal_strlit("join-back-left");
    reveal_strlit("join-front-right");
    reveal_strlit("join-left-front");
    reveal_strlit("join-right-back");
    let s = shell_own_ids();
    assert forall|i: int, j: int| 0 <= i < s.len() && 0 <= j < s.len() && i != j implies s[i] != s[j] by {
        if s[i] == s[j] {
            assert(s[i].len() == s[j].len());
            assert(s[i][0] == s[j][0]);
            assert(s[i][s[i].len() - 1] == s[j][s[j].len() - 1]);
            assert(s[i][5] == s[j][5]);
            assert(s[i][6] == s[j][6]);
            assert(s[i][8] == s[j][8]);
            assert(s[i][10] == s[j][10]);
            assert(s[i][13] == s[j][13]);
            assert(s[i][14] == s[j][14]);
            assert(s[i][16] == s[j][16]);
        }
    }
}

/// The catalog's ids, the level and the standards pack, then the ids `d`: none
/// repeats when the catalog is valid, `d` follows `level-1` and `std-irc-2021`
/// in `own` without repeats, and no catalog id is in `own`.
proof fn lemma_demo_ids_distinct(m0: BuildingModel, starter: Library, own: Seq<Seq<char>>)
    requires
        m0.materials == starter.materials,
        m0.systems == starter.systems,
        keys_of(m0.levels@) + keys_of(m0.standards_packs@) == own.subrange(0, 2),
        ids_after_catalog(m0) == own.subrange(2, own.len() as int),
        own.len() >= 2,
        own.no_duplicates(),
        catalog_valid(starter.materials@, starter.systems@),
        forall|k: int| 0 <= k < starter_ids(starter).len() ==> !own.contains(#[trigger] starter_ids(starter)[k]),
    ensures
        model_ids(m0).no_duplicates(),
{
    let front = keys_of(m0.levels@) + keys_of(m0.standards_packs@);
    let cat = keys_of(m0.materials@) + keys_of(m0.systems@);
    let d = ids_after_catalog(m0);
    lemma_model_ids_split(m0);
    assert(cat =~= starter_ids(starter));
    assert(cat.no_duplicates()) by {
        assert forall|i: int, j: int| 0 <= i < cat.len() && 0 <= j < cat.len() && i != j implies cat[i] != cat[j] by {
            if i > j {
                assert(cat[j] != cat[i]);
            }
        }
    }
    assert(front.no_duplicates()) by {
        assert(own.subrange(0, 2) + own.subrange(2, own.len() as int) + Seq::<Seq<char>>::empty() =~= own);
        lemma_no_duplicates_middle(Seq::<Seq<char>>::empty(), own.subrange(0, 2), own.subrange(2, own.len() as int));
        assert(Seq::<Seq<char>>::empty() + own.subrange(0, 2) + own.subrange(2, own.len() as int) =~= own);
    }
    assert(d.no_duplicates()) by {
        lemma_no_duplicates_middle(own.subrange(0, 2), own.subrange(2, own.len() as int), Seq::<Seq<char>>::empty());
        assert(own.subrange(0, 2) + own.subrange(2, own.len() as int) + Seq::<Seq<char>>::empty() =~= own);
    }
    assert forall|k: int| 0 <= k < cat.len() implies !front.contains(#[trigger] cat[k]) by {
        if front.contains(cat[k]) {
            let t = choose|t: int| 0 <= t < front.len() && front[t] == cat[k];
            assert(own[t] == cat[k]);
            assert(own.contains(starter_ids(starter)[k]));
        }
    }
    lemma_concat_distinct(front, cat);
    let x = front + cat;
    assert forall|k: int| 0 <= k < d.len() implies !x.contains(#[trigger] d[k]) by {
        assert(own[2 + k] == d[k]);
        if x.contains(d[k]) {
            let t = choose|t: int| 0 <= t < x.len() && x[t] == d[k];
            if t < 2 {
                assert(own[t] == d[k]);
            } else {
                assert(cat[t - 2] == d[k]);
                assert(own.contains(starter_ids(starter)[t - 2]));
            }
        }
    }
    lemma_concat_distinct(x, d);
}

/// The shell demo's walls, openings, joins and (no) rooms.
pub open spec fn shell_layout(r: BuildingModel) -> bool {
    &&& r.walls@.len() == 4
    &&& shell_wall(r.walls@[0], "wall-back"@, "Back wall"@, 336, 240, 0, 240)
    &&& shell_wall(r.walls@[1], "wall-front"@, "Front wall"@, 0, 0, 336, 0)
    &&& shell_wall(r.walls@[2], "wall-left"@, "Left wall"@, 0, 240, 0, 0)
    &&& shell_wall(r.walls@[3], "wall-right"@, "Right wall"@, 336, 0, 336, 240)
    &&& r.walls@[0].openings@.len() == 2
    &&& opening_is(r.walls@[0].openings@[0], "opening-back-left-window"@, OpeningKind::Window, 84, 48, 48, 36)
    &&& opening_is(r.walls@[0].openings@[1], "opening-back-right-window"@, OpeningKind::Window, 240, 48, 48, 36)
    &&& r.walls@[1].openings@.len() == 2
    &&& opening_is(r.walls@[1].openings@[0], "opening-front-door"@, OpeningKind::Door, 60, 36, 80, 0)
    &&& opening_is(r.walls@[1].openings@[1], "opening-front-garage"@, OpeningKind::GarageDoor, 234, 96, 84, 0)
    &&& r.walls@[2].openings@.len() == 1
    &&& opening_is(r.walls@[2].openings@[0], "opening-left-service-door"@, OpeningKind::Door, 96, 36, 80, 0)
    &&& r.walls@[3].openings@.len() == 1
    &&& opening_is(r.walls@[3].openings@[0], "opening-right-window"@, OpeningKind::Window, 120, 42, 42, 36)
    &&& r.wall_joins@.len() == 4
    &&& join_is(r.wall_joins@[0], "join-back-left"@, WallJoinKind::Corner, "wall-back"@, "wall-left"@, 0, 240)
    &&& join_is(r.wall_joins@[1], "join-front-right"@, WallJoinKind::Corner, "wall-front"@, "wall-right"@, 336, 0)
    &&& join_is(r.wall_joins@[2], "join-left-front"@, WallJoinKind::Corner, "wall-left"@, "wall-front"@, 0, 0)
    &&& join_is(r.wall_joins@[3], "join-right-back"@, WallJoinKind::Corner, "wall-right"@, "wall-back"@, 336, 240)
    &&& r.rooms@.len() == 0
}

/// The shell demo on a suitable starter catalog is a valid model.
proof fn lemma_shell_valid(r: BuildingModel, starter: Library)
    requires
        shell_layout(r),
        demo_frame(r, starter),
        demo_catalog_ok(starter, shell_own_ids(), seq!["system-wall-exterior-1"@]),
    ensures
        model_valid(r),
{
    reveal_strlit("level-1");
    reveal_strlit("std-irc-2021");
    reveal_strlit("system-wall-exterior-1");
    reveal_strlit("wall-back");
    reveal_strlit("opening-back-left-window");
    reveal_strlit("opening-back-right-window");
    reveal_strlit("wall-front");
    reveal_strlit("opening-front-door");
    reveal_strlit("opening-front-garage");
    reveal_strlit("wall-left");
    reveal_strlit("opening-left-service-door");
    reveal_strlit("wall-right");
    reveal_strlit("opening-right-window");
    reveal_strlit("join-back-left");
    reveal_strlit("join-front-right");
    reveal_strlit("join-left-front");
    reveal_strlit("join-right-back");
    let m0 = BuildingModel { materials: starter.materials, systems: starter.systems, ..r };
    let own = shell_own_ids();
    lemma_shell_ids_distinct();
    reveal_with_fuel(walls_ids, 5);
    assert(keys_of(m0.levels@) + keys_of(m0.standards_packs@) =~= own.subrange(0, 2));
    assert(ids_after_catalog(m0) =~= own.subrange(2, own.len() as int));
    lemma_demo_ids_distinct(m0, starter, own);
    let sys = "system-wall-exterior-1"@;
    assert(seq![sys][0] == sys);
    assert(key_index(m0.systems@, sys) >= 0 && m0.systems@[key_index(m0.systems@, sys)].kind == SystemKind::Wall);
    assert(key_index(m0.levels@, "level-1"@) == 0);
    assert forall|i: int| 0 <= i < m0.walls@.len() implies wall_ok(m0, #[trigger] m0.walls@[i]) by {
        let w = m0.walls@[i];
        assert(valid_id(w.id@) && valid_id(w.level@) && valid_id(w.system@));
        assert(placement_length_spec(w.start, w.end) == Some(w.length.ticks as int));
        assert(openings_valid(w));
        assert(openings_disjoint(w));
    }
    lemma_key_index_at(m0.walls@, "wall-back"@, 0);
    lemma_key_index_at(m0.walls@, "wall-front"@, 1);
    lemma_key_index_at(m0.walls@, "wall-left"@, 2);
    lemma_key_index_at(m0.walls@, "wall-right"@, 3);
    assert forall|i: int| 0 <= i < m0.wall_joins@.len() implies join_ok(m0, #[trigger] m0.wall_joins@[i]) by {
        let j = m0.wall_joins@[i];
        assert(valid_id(j.id@) && valid_id(j.first_wall@) && valid_id(j.second_wall@));
    }
    assert(m0.materials@.map_values(|x: Material| x.id@) =~= crate::library::material_ids(m0.materials@));
    assert(key_index(m0.standards_packs@, m0.standards@[0]@) == 0);
    assert(model_valid(m0));
    assert(r == (BuildingModel { materials: r.materials, systems: r.systems, ..m0 }));
    lemma_catalog_order_irrelevant(m0, r);
}

/// The two-bedroom demo's walls, opening, joins and rooms.
pub open spec fn two_bedroom_layout(r: BuildingModel) -> bool {
    &&& r.walls@.len() == 6
    &&& shell_wall(r.walls@[0], "wall-back"@, "Back wall"@, 288, 192, 0, 192)
    &&& placed_wall(r.walls@[1], "wall-bed"@, "Bedroom partition"@, "system-wall-interior-1"@, 0, 96, 144, 96)
    &&& shell_wall(r.walls@[2], "wall-front"@, "Front wall"@, 0, 0, 288, 0)
    &&& shell_wall(r.walls@[3], "wall-left"@, "Left wall"@, 0, 192, 0, 0)
    &&& placed_wall(r.walls@[4], "wall-mid"@, "Center partition"@, "system-wall-interior-1"@, 144, 0, 144, 192)
    &&& shell_wall(r.walls@[5], "wall-right"@, "Right wall"@, 288, 0, 288, 192)
    &&& r.walls@[0].openings@.len() == 0
    &&& r.walls@[1].openings@.len() == 0
    &&& r.walls@[2].openings@.len() == 1
    &&& opening_is(r.walls@[2].openings@[0], "opening-front-door"@, OpeningKind::Door, 72, 36, 80, 0)
    &&& r.walls@[3].openings@.len() == 0
    &&& r.walls@[4].openings@.len() == 0
    &&& r.walls@[5].openings@.len() == 0
    &&& r.wall_joins@.len() == 8
    &&& join_is(r.wall_joins@[0], "join-back-left"@, WallJoinKind::Corner, "wall-back"@, "wall-left"@, 0, 192)
    &&& join_is(r.wall_joins@[1], "join-bed-left"@, WallJoinKind::Tee, "wall-left"@, "wall-bed"@, 0, 96)
    &&& join_is(r.wall_joins@[2], "join-bed-mid"@, WallJoinKind::Tee, "wall-mid"@, "wall-bed"@, 144, 96)
    &&& join_is(r.wall_joins@[3], "join-front-right"@, WallJoinKind::Corner, "wall-front"@, "wall-right"@, 288, 0)
    &&& join_is(r.wall_joins@[4], "join-left-front"@, WallJoinKind::Corner, "wall-left"@, "wall-front"@, 0, 0)
    &&& join_is(r.wall_joins@[5], "join-mid-back"@, WallJoinKind::Tee, "wall-back"@, "wall-mid"@, 144, 192)
    &&& join_is(r.wall_joins@[6], "join-mid-front"@, WallJoinKind::Tee, "wall-front"@, "wall-mid"@, 144, 0)
    &&& join_is(r.wall_joins@[7], "join-right-back"@, WallJoinKind::Corner, "wall-right"@, "wall-back"@, 288, 192)
    &&& r.rooms@.len() == 3
    &&& room_is(r.rooms@[0], "room-bed-1"@, "Bedroom 1"@, RoomUsage::Bedroom, 72, 48)
    &&& room_is(r.rooms@[1], "room-bed-2"@, "Bedroom 2"@, RoomUsage::Bedroom, 72, 144)
    &&& room_is(r.rooms@[2], "room-living"@, "Living"@, RoomUsage::Living, 216, 96)
}

/// The ids the two-bedroom demo adds to a starter catalog, in the model's order.
pub open spec fn two_bedroom_own_ids() -> Seq<Seq<char>> {
    seq!["level-1"@, "std-irc-2021"@, "wall-back"@, "wall-bed"@, "wall-front"@, "opening-front-door"@, "wall-left"@, "wall-mid"@, "wall-right"@, "join-back-left"@, "join-bed-left"@, "join-bed-mid"@, "join-front-right"@, "join-left-front"@, "join-mid-back"@, "join-mid-front"@, "join-right-back"@, "room-bed-1"@, "room-bed-2"@, "room-living"@]
}

/// The literal ids of the two-bedroom demo differ from each other.
proof fn lemma_two_bedroom_ids_distinct()
    ensures
        two_bedroom_own_ids().no_duplicates(),
{
    reveal_strlit("level-1");
    reveal_strlit("std-irc-2021");
    reveal_strlit("wall-back");
    reveal_strlit("wall-bed");
    reveal_strlit("wall-front");
    reveal_strlit("opening-front-door");
    reveal_strlit("wall-left");
    reveal_strlit("wall-mid");
    reveal_strlit("wall-right");
    reveal_strlit("join-back-left");
    reveal_strlit("join-bed-left");
    reveal_strlit("join-bed-mid");
    reveal_strlit("join-front-right");
    reveal_strlit("join-left-front");
    reveal_strlit("join-mid-back");
    reveal_strlit("join-mid-front");
    reveal_strlit("join-right-back");
    reveal_strlit("room-bed-1");
    reveal_strlit("room-bed-2");
    reveal_strlit("room-living");
    let s = two_bedroom_own_ids();
    assert forall|i: int, j: int| 0 <= i < s.len() && 0 <= j < s.len() && i != j implies s[i] != s[j] by {
        if s[i] == s[j] {
            assert(s[i].len() == s[j].len());
            assert(s[i][0] == s[j][0]);
            assert(s[i][s[i].len() - 1] == s[j][s[j].len() - 1]);
            assert(s[i][5] == s[j][5]);
            assert(s[i][6] == s[j][6]);
            assert(s[i][7] == s[j][7]);
            assert(s[i][8] == s[j][8]);
            assert(s[i][9] == s[j][9]);
            assert(s[i][10] == s[j][10]);
            assert(s[i][11] == s[j][11]);
            assert(s[i][13] == s[j][13]);
        }
    }
}

/// The two-bedroom demo on a suitable starter catalog is a valid model.
proof fn lemma_two_bedroom_valid(r: BuildingModel, starter: Library)
    requires
        two_bedroom_layout(r),
        demo_frame(r, starter),
        demo_catalog_ok(starter, two_bedroom_own_ids(), seq!["system-wall-exterior-1"@, "system-wall-interior-1"@]),
    ensures
        model_valid(r),
{
    reveal_strlit("level-1");
    reveal_strlit("std-irc-2021");
    reveal_strlit("wall-back");
    reveal_strlit("wall-bed");
    reveal_strlit("wall-front");
    reveal_strlit("opening-front-door");
    reveal_strlit("wall-left");
    reveal_strlit("wall-mid");
    reveal_strlit("wall-right");
    reveal_strlit("join-back-left");
    reveal_strlit("join-bed-left");
    reveal_strlit("join-bed-mid");
    reveal_strlit("join-front-right");
    reveal_strlit("join-left-front");
    reveal_strlit("join-mid-back");
    reveal_strlit("join-mid-front");
    reveal_strlit("join-right-back");
    reveal_strlit("room-bed-1");
    reveal_strlit("room-bed-2");
    reveal_strlit("room-living");
    reveal_strlit("system-wall-exterior-1");
    reveal_strlit("system-wall-interior-1");
    let m0 = BuildingModel { materials: starter.materials, systems: starter.systems, ..r };
    let own = two_bedroom_own_ids();
    lemma_two_bedroom_ids_distinct();
    reveal_with_fuel(walls_ids, 7);
    assert(keys_of(m0.levels@) + keys_of(m0.standards_packs@) =~= own.subrange(0, 2));
    assert(ids_after_catalog(m0) =~= own.subrange(2, own.len() as int));
    lemma_demo_ids_distinct(m0, starter, own);
    let systems = seq!["system-wall-exterior-1"@, "system-wall-interior-1"@];
    assert(systems[0] == "system-wall-exterior-1"@ && systems[1] == "system-wall-interior-1"@);
    assert(key_index(m0.levels@, "level-1"@) == 0);
    assert forall|i: int| 0 <= i < m0.walls@.len() implies wall_ok(m0, #[trigger] m0.walls@[i]) by {
        let w = m0.walls@[i];
        assert(valid_id(w.id@) && valid_id(w.level@) && valid_id(w.system@));
        assert(placement_length_spec(w.start, w.end) == Some(w.length.ticks as int));
        assert(openings_valid(w));
        assert(openings_disjoint(w));
    }
    lemma_key_index_at(m0.walls@, "wall-back"@, 0);
    lemma_key_index_at(m0.walls@, "wall-bed"@, 1);
    lemma_key_index_at(m0.walls@, "wall-front"@, 2);
    lemma_key_index_at(m0.walls@, "wall-left"@, 3);
    lemma_key_index_at(m0.walls@, "wall-mid"@, 4);
    lemma_key_index_at(m0.walls@, "wall-right"@, 5);
    assert forall|i: int| 0 <= i < m0.wall_joins@.len() implies join_ok(m0, #[trigger] m0.wall_joins@[i]) by {
        let j = m0.wall_joins@[i];
        assert(valid_id(j.id@) && valid_id(j.first_wall@) && valid_id(j.second_wall@));
    }
    assert forall|i: int| 0 <= i < m0.rooms@.len() implies valid_id((#[trigger] m0.rooms@[i]).id@) && level_known(
        m0,
        m0.rooms@[i].level@,
    ) by {}
    assert(m0.materials@.map_values(|x: Material| x.id@) =~= crate::library::material_ids(m0.materials@));
    assert(key_index(m0.standards_packs@, m0.standards@[0]@) == 0);
    assert(model_valid(m0));
    assert(r == (BuildingModel { materials: r.materials, systems: r.systems, ..m0 }));
    lemma_catalog_order_irrelevant(m0, r);
}

/// What `BuildingModel::validate` establishes: every rule it checks holds and
/// no element id occurs twice across the model.
pub open spec fn model_valid(m: BuildingModel) -> bool {
    &&& m.levels@.len() > 0
    &&& model_ids(m).no_duplicates()
    &&& forall|i: int| 0 <= i < m.levels@.len() ==> valid_id((#[trigger] m.levels@[i]).id@)
    &&& forall|i: int| 0 <= i < m.standards_packs@.len() ==> pack_valid(#[trigger] m.standards_packs@[i])
    &&& forall|i: int| 0 <= i < m.standards@.len() ==> valid_id((#[trigger] m.standards@[i])@) && key_index(m.standards_packs@, m.standards@[i]@) >= 0
    &&& forall|i: int, j: int| 0 <= i < j < m.standards@.len() ==> m.standards@[i]@ != m.standards@[j]@
    &&& forall|i: int| 0 <= i < m.materials@.len() ==> valid_id((#[trigger] m.materials@[i]).id@) && appearance_valid(m.materials@[i].appearance)
    &&& forall|i: int| 0 <= i < m.systems@.len() ==> valid_id((#[trigger] m.systems@[i]).id@) && system_layers_valid(
        m.systems@[i],
        m.materials@.map_values(|x: Material| x.id@),
    )
    &&& forall|i: int| 0 <= i < m.furnishings@.len() ==> valid_id((#[trigger] m.furnishings@[i]).id@) && size_positive(m.furnishings@[i].size)
    &&& forall|i: int| 0 <= i < m.mep_objects@.len() ==> valid_id((#[trigger] m.mep_objects@[i]).id@) && size_positive(m.mep_objects@[i].size)
    &&& forall|i: int| 0 <= i < m.walls@.len() ==> wall_ok(m, #[trigger] m.walls@[i])
    &&& forall|i: int| 0 <= i < m.wall_joins@.len() ==> join_ok(m, #[trigger] m.wall_joins@[i])
    &&& forall|i: int| 0 <= i < m.furnishing_instances@.len() ==> {
        let x = #[trigger] m.furnishing_instances@[i];
        valid_id(x.id@) && level_known(m, x.level@) && key_index(m.furnishings@, x.family@) >= 0
    }
    &&& forall|i: int| 0 <= i < m.mep_instances@.len() ==> {
        let x = #[trigger] m.mep_instances@[i];
        valid_id(x.id@) && level_known(m, x.level@) && key_index(m.mep_objects@, x.family@) >= 0
    }
    &&& forall|i: int| 0 <= i < m.braced_wall_lines@.len() ==> {
        let x = #[trigger] m.braced_wall_lines@[i];
        valid_id(x.id@) && level_known(m, x.level@)
    }
    &&& forall|i: int| 0 <= i < m.rooms@.len() ==> valid_id((#[trigger] m.rooms@[i]).id@) && level_known(m, m.rooms@[i].level@)
    &&& forall|i: int| 0 <= i < m.roof_planes@.len() ==> {
        let x = #[trigger] m.roof_planes@[i];
        valid_id(x.id@) && level_known(m, x.level@) && system_of_kind(m, x.system@, SystemKind::Roof) && roof_geometry_valid(x)
            && roof_openings_sound(x)
    }
    &&& forall|i: int, j: int|
        0 <= i < j < m.roof_planes@.len() && m.roof_planes@[i].level@ == m.roof_planes@[j].level@ && roofs_share_edge(
            #[trigger] m.roof_planes@[i],
            #[trigger] m.roof_planes@[j],
        ) ==> m.roof_planes@[i].eave_overhang == m.roof_planes@[j].eave_overhang && m.roof_planes@[i].rake_overhang
            == m.roof_planes@[j].rake_overhang
    &&& forall|i: int| 0 <= i < m.ceilings@.len() ==> ceiling_ok(m, #[trigger] m.ceilings@[i])
    &&& forall|i: int| 0 <= i < m.floor_decks@.len() ==> deck_ok(m, #[trigger] m.floor_decks@[i])
}

/// What `BuildingModel::validate` needs to compute without overflow.
pub open spec fn model_fits(m: BuildingModel) -> bool {
    &&& forall|i: int| 0 <= i < m.walls@.len() ==> driving_values_fit((#[trigger] m.walls@[i]).dimensions@)
    &&& forall|i: int, j: int|
        0 <= i < m.walls@.len() && 0 <= j < m.wall_joins@.len() ==> point_on_segment_fits(
            #[trigger] m.walls@[i],
            #[trigger] m.wall_joins@[j].point,
        )
    &&& forall|i: int| 0 <= i < m.roof_planes@.len() ==> diffs_fit((#[trigger] m.roof_planes@[i]).outline@)
    &&& forall|i: int| 0 <= i < m.ceilings@.len() ==> region_fits((#[trigger] m.ceilings@[i]).region)
    &&& forall|i: int| 0 <= i < m.floor_decks@.len() ==> region_fits((#[trigger] m.floor_decks@[i]).region)
}

/// The bound, in ticks, on coordinates and driving values within which every
/// exact computation of `validate` fits in an `i64` (about 530 miles).
pub const EXACT_RANGE: i64 = 536870912;

/// A point within the exact range.
pub open spec fn point_in_range(p: Point2) -> bool {
    -EXACT_RANGE <= p.x.ticks <= EXACT_RANGE && -EXACT_RANGE <= p.y.ticks <= EXACT_RANGE
}

/// Every point of the list is within the exact range.
pub open spec fn points_in_range(ps: Seq<Point2>) -> bool {
    forall|k: int| 0 <= k < ps.len() ==> point_in_range(#[trigger] ps[k])
}

/// Every coordinate and driving value of the model is within the exact range.
pub open spec fn model_in_range(m: BuildingModel) -> bool {
    &&& forall|i: int| 0 <= i < m.walls@.len() ==> point_in_range((#[trigger] m.walls@[i]).start) && point_in_range(m.walls@[i].end)
    &&& forall|i: int, j: int|
        #![trigger m.walls@[i].dimensions@[j]]
        0 <= i < m.walls@.len() && 0 <= j < m.walls@[i].dimensions@.len() ==> (m.walls@[i].dimensions@[j].value matches Some(v)
            ==> -EXACT_RANGE <= v.ticks <= EXACT_RANGE)
    &&& forall|j: int| 0 <= j < m.wall_joins@.len() ==> point_in_range((#[trigger] m.wall_joins@[j]).point)
    &&& forall|i: int| 0 <= i < m.roof_planes@.len() ==> points_in_range((#[trigger] m.roof_planes@[i]).outline@)
    &&& forall|i: int| 0 <= i < m.ceilings@.len() ==> ((#[trigger] m.ceilings@[i]).region matches SurfaceRegion::Polygon(ps)
        ==> points_in_range(ps@))
    &&& forall|i: int| 0 <= i < m.floor_decks@.len() ==> ((#[trigger] m.floor_decks@[i]).region matches SurfaceRegion::Polygon(ps)
        ==> points_in_range(ps@))
}

/// Within the exact range, the products `validate` forms fit in an `i64`.
proof fn lemma_in_range_on_segment(w: Wall, p: Point2)
    requires
        point_in_range(w.start),
        point_in_range(w.end),
        point_in_range(p),
    ensures
        point_on_segment_fits(w, p),
{
    let ex = w.end.x.ticks - w.start.x.ticks;
    let ey = w.end.y.ticks - w.start.y.ticks;
    let ox = p.x.ticks - w.start.x.ticks;
    let oy = p.y.ticks - w.start.y.ticks;
    let b: int = 1073741824;
    assert(-b <= ex <= b && -b <= ey <= b && -b <= ox <= b && -b <= oy <= b);
    assert(b * b == 1152921504606846976int);
    assert(-b * b <= ex * oy <= b * b) by (nonlinear_arith)
        requires -b <= ex <= b, -b <= oy <= b, b >= 0;
    assert(-b * b <= ey * ox <= b * b) by (nonlinear_arith)
        requires -b <= ey <= b, -b <= ox <= b, b >= 0;
    assert(-b * b <= ox * ex <= b * b) by (nonlinear_arith)
        requires -b <= ox <= b, -b <= ex <= b, b >= 0;
    assert(-b * b <= oy * ey <= b * b) by (nonlinear_arith)
        requires -b <= oy <= b, -b <= ey <= b, b >= 0;
    assert(0 <= ex * ex <= b * b) by (nonlinear_arith)
        requires -b <= ex <= b, b >= 0;
    assert(0 <= ey * ey <= b * b) by (nonlinear_arith)
        requires -b <= ey <= b, b >= 0;
}

/// Within the exact range, coordinate differences fit in an `i64`.
proof fn lemma_in_range_diffs(ps: Seq<Point2>)
    requires
        points_in_range(ps),
    ensures
        diffs_fit(ps),
{
    assert forall|i: int, j: int| 0 <= i < ps.len() && 0 <= j < ps.len() implies fits64(#[trigger] ps[i].x.ticks - #[trigger] ps[j].x.ticks)
        && fits64(ps[i].y.ticks - ps[j].y.ticks) by {
        assert(point_in_range(ps[i]) && point_in_range(ps[j]));
    }
}

/// A model within the exact range can be validated.
proof fn lemma_in_range_fits(m: BuildingModel)
    requires
        model_in_range(m),
    ensures
        model_fits(m),
{
    assert forall|i: int, j: int| 0 <= i < m.walls@.len() && 0 <= j < m.wall_joins@.len() implies point_on_segment_fits(
        #[trigger] m.walls@[i],
        #[trigger] m.wall_joins@[j].point,
    ) by {
        lemma_in_range_on_segment(m.walls@[i], m.wall_joins@[j].point);
    }
    assert forall|i: int| 0 <= i < m.walls@.len() implies driving_values_fit((#[trigger] m.walls@[i]).dimensions@) by {
        assert forall|j: int| 0 <= j < m.walls@[i].dimensions@.len() implies doubles((#[trigger] m.walls@[i].dimensions@[j]).value) by {
        }
    }
    assert forall|i: int| 0 <= i < m.roof_planes@.len() implies diffs_fit((#[trigger] m.roof_planes@[i]).outline@) by {
        lemma_in_range_diffs(m.roof_planes@[i].outline@);
    }
    assert forall|i: int| 0 <= i < m.ceilings@.len() implies region_fits((#[trigger] m.ceilings@[i]).region) by {
        if let SurfaceRegion::Polygon(ps) = m.ceilings@[i].region {
            lemma_in_range_diffs(ps@);
        }
    }
    assert forall|i: int| 0 <= i < m.floor_decks@.len() implies region_fits((#[trigger] m.floor_decks@[i]).region) by {
        if let SurfaceRegion::Polygon(ps) = m.floor_decks@[i].region {
            lemma_in_range_diffs(ps@);
        }
    }
}

/// Whether the point is within the exact range.
fn point_within(p: Point2) -> (r: bool)
    ensures
        r == point_in_range(p),
{
    -EXACT_RANGE <= p.x.ticks && p.x.ticks <= EXACT_RANGE && -EXACT_RANGE <= p.y.ticks && p.y.ticks <= EXACT_RANGE
}

/// Whether every point of the list is within the exact range.
fn points_within(ps: &Vec<Point2>) -> (r: bool)
    ensures
        r == points_in_range(ps@),
{
    let mut k: usize = 0;
    while k < ps.len()
        invariant
            k <= ps.len(),
            forall|t: int| 0 <= t < k ==> point_in_range(#[trigger] ps@[t]),
        decreases ps.len() - k,
    {
        if !point_within(ps[k]) {
            return false;
        }
        k = k + 1;
    }
    true
}

/// Whether a surface region's polygon, if it has one, is within the exact range.
fn region_within(region: &SurfaceRegion) -> (r: bool)
    ensures
        r == (region matches SurfaceRegion::Polygon(ps) ==> points_in_range(ps@)),
{
    match region {
        SurfaceRegion::Polygon(ps) => points_within(ps),
        SurfaceRegion::Room(_) => true,
    }
}

impl BuildingModel {
    /// Whether every coordinate and driving value of the model lies within the
    /// exact range, where `validate` and the edits that call it compute without
    /// overflow.
    pub fn within_exact_range(&self) -> (r: bool)
        ensures
            r == model_in_range(*self),
            r ==> model_fits(*self),
    {
        let mut i: usize = 0;
        while i < self.walls.len()
            invariant
                i <= self.walls.len(),
                forall|t: int| 0 <= t < i ==> point_in_range((#[trigger] self.walls@[t]).start) && point_in_range(self.walls@[t].end),
                forall|t: int, j: int|
                    #![trigger self.walls@[t].dimensions@[j]]
                    0 <= t < i && 0 <= j < self.walls@[t].dimensions@.len() ==> (self.walls@[t].dimensions@[j].value matches Some(v)
                        ==> -EXACT_RANGE <= v.ticks <= EXACT_RANGE),
            decreases self.walls.len() - i,
        {
            let wall = &self.walls[i];
            if !point_within(wall.start) || !point_within(wall.end) {
                return false;
            }
            let mut j: usize = 0;
            while j < wall.dimensions.len()
                invariant
                    i < self.walls.len(),
                    *wall == self.walls@[i as int],
                    j <= wall.dimensions.len(),
                    forall|u: int| 0 <= u < j ==> ((#[trigger] wall.dimensions@[u]).value matches Some(v) ==> -EXACT_RANGE <= v.ticks
                        <= EXACT_RANGE),
                decreases wall.dimensions.len() - j,
            {
                match wall.dimensions[j].value {
                    Some(v) => {
                        if v.ticks < -EXACT_RANGE || v.ticks > EXACT_RANGE {
                            return false;
                        }
                    },
                    None => {},
                }
                j = j + 1;
            }
            i = i + 1;
        }
        let mut j: usize = 0;
        while j < self.wall_joins.len()
            invariant
                j <= self.wall_joins.len(),
                forall|t: int| 0 <= t < j ==> point_in_range((#[trigger] self.wall_joins@[t]).point),
            decreases self.wall_joins.len() - j,
        {
            if !point_within(self.wall_joins[j].point) {
                return false;
            }
            j = j + 1;
        }
        let mut i: usize = 0;
        while i < self.roof_planes.len()
            invariant
                i <= self.roof_planes.len(),
                forall|t: int| 0 <= t < i ==> points_in_range((#[trigger] self.roof_planes@[t]).outline@),
            decreases self.roof_planes.len() - i,
        {
            if !points_within(&self.roof_planes[i].outline) {
                return false;
            }
            i = i + 1;
        }
        let mut i: usize = 0;
        while i < self.ceilings.len()
            invariant
                i <= self.ceilings.len(),
                forall|t: int| 0 <= t < i ==> ((#[trigger] self.ceilings@[t]).region matches SurfaceRegion::Polygon(ps)
                    ==> points_in_range(ps@)),
            decreases self.ceilings.len() - i,
        {
            if !region_within(&self.ceilings[i].region) {
                return false;
            }
            i = i + 1;
        }
        let mut i: usize = 0;
        while i < self.floor_decks.len()
            invariant
                i <= self.floor_decks.len(),
                forall|t: int| 0 <= t < i ==> ((#[trigger] self.floor_decks@[t]).region matches SurfaceRegion::Polygon(ps)
                    ==> points_in_range(ps@)),
            decreases self.floor_decks.len() - i,
        {
            if !region_within(&self.floor_decks[i].region) {
                return false;
            }
            i = i + 1;
        }
        proof {
            lemma_in_range_fits(*self);
        }
        true
    }
}

/// Whether the level exists.
fn level_exists(levels: &Vec<Level>, id: &ElementId) -> (r: bool)
    ensures
        r == (key_index(levels@, id@) >= 0),
{
    position_of(levels, id.as_str()).is_some()
}

/// Checks that the system exists and has the expected kind.
fn check_system_kind(systems: &Vec<ConstructionSystem>, id: &ElementId, kind: SystemKind) -> (r: Result<(), bool>)
    ensures
        r is Ok <==> (key_index(systems@, id@) >= 0 && systems@[key_index(systems@, id@)].kind == kind),
        r matches Err(wrong_kind) ==> wrong_kind == (key_index(systems@, id@) >= 0),
{
    match position_of(systems, id.as_str()) {
        Some(i) => {
            if systems[i].kind == kind {
                Ok(())
            } else {
                Err(true)
            }
        },
        None => Err(false),
    }
}

/// Whether two roof planes share an edge.
pub(crate) fn roof_edges_shared(a: &RoofPlane, b: &RoofPlane) -> (r: bool)
    ensures
        r == roofs_share_edge(*a, *b),
{
    let n = a.outline.len();
    let k = b.outline.len();
    let mut e: usize = 0;
    while e < n
        invariant
            n == a.outline@.len(),
            k == b.outline@.len(),
            e <= n,
            forall|x: int, y: int|
                #![trigger a.outline@[x], b.outline@[y]]
                0 <= x < e && 0 <= y < k ==> !((a.outline@[x] == b.outline@[y] && a.outline@[(x + 1) % (n as int)] == b.outline@[(y + 1) % (k as int)])
                    || (a.outline@[x] == b.outline@[(y + 1) % (k as int)] && a.outline@[(x + 1) % (n as int)] == b.outline@[y])),
        decreases n - e,
    {
        let mut f: usize = 0;
        while f < k
            invariant
                n == a.outline@.len(),
                k == b.outline@.len(),
                e < n,
                f <= k,
                forall|x: int, y: int|
                    #![trigger a.outline@[x], b.outline@[y]]
                    0 <= x < e && 0 <= y < k ==> !((a.outline@[x] == b.outline@[y] && a.outline@[(x + 1) % (n as int)] == b.outline@[(y + 1) % (k as int)])
                        || (a.outline@[x] == b.outline@[(y + 1) % (k as int)] && a.outline@[(x + 1) % (n as int)] == b.outline@[y])),
                forall|y: int|
                    #![trigger b.outline@[y]]
                    0 <= y < f ==> !((a.outline@[e as int] == b.outline@[y] && a.outline@[(e + 1) % (n as int)] == b.outline@[(y + 1) % (k as int)])
                        || (a.outline@[e as int] == b.outline@[(y + 1) % (k as int)] && a.outline@[(e + 1) % (n as int)] == b.outline@[y])),
            decreases k - f,
        {
            let e1 = (e + 1) % n;
            let f1 = (f + 1) % k;
            if (a.outline[e] == b.outline[f] && a.outline[e1] == b.outline[f1]) || (a.outline[e] == b.outline[f1] && a.outline[e1] == b.outline[f]) {
                return true;
            }
            f = f + 1;
        }
        e = e + 1;
    }
    false
}

impl BuildingModel {
    /// Validates the whole model: ids (unique across the model), levels, the
    /// standards stack, the catalog, walls with their openings, dimensions and
    /// bracing, joins, placed objects, rooms, roofs, ceilings and floor decks.
    #[verifier::rlimit(40)]
    pub fn validate(&self) -> (r: Result<(), ModelError>)
        requires
            model_fits(*self),
        ensures
            r is Ok ==> model_valid(*self),
            model_valid(*self) && no_solved_dimensions(*self) ==> r is Ok,
            model_valid(*self) && walls_decidable(*self) ==> r is Ok,
            forall|i: int| #[trigger] pack_id_repeats(*self, i) ==> (r matches Err(ModelError::DuplicateElementId { id })
                && id@ == self.standards_packs@[i].id@),
            forall|i: int| #[trigger] stack_entry_repeats(*self, i) ==> (r matches Err(
                ModelError::StandardsStackDuplicatePack { pack },
            ) && pack@ == self.standards@[i]@),
            self.levels@.len() == 0 && (forall|i: int| 0 <= i < self.levels@.len() ==> valid_id(
                (#[trigger] self.levels@[i]).id@,
            )) ==> r is Err,
    {
        proof {
            lemma_model_id_groups(*self);
        }
        let ghost whole = model_ids(*self);
        let mut ids: Vec<ElementId> = Vec::new();
        let ghost p0 = Seq::<Seq<char>>::empty();
        let mut i: usize = 0;
        while i < self.levels.len()
            invariant
                i <= self.levels.len(),
                forall|t: int| 0 <= t < i ==> valid_id((#[trigger] self.levels@[t]).id@),
                id_views(ids@) == p0 + keys_of(self.levels@.take(i as int)),
                id_views(ids@).no_duplicates(),
                p0 == Seq::<Seq<char>>::empty(),
                whole == model_ids(*self),
                (p0 + keys_of(self.levels@)).is_prefix_of(whole),
            decreases self.levels.len() - i,
        {
            validate_element_id(&self.levels[i].id)?;
            let ghost before = ids@;
            proof {
                if model_valid(*self) {
                    lemma_next_key_fresh(whole, p0, self.levels@, i as int);
                }
                if levels_pass(*self) {
                    let k = keys_of(self.levels@);
                    assert(p0 + k =~= k);
                    assert(k.subrange(0, k.len() as int) =~= k);
                    lemma_next_key_fresh(k, p0, self.levels@, i as int);
                }
            }
            insert_unique_id(&mut ids, &self.levels[i].id)?;
            proof {
                lemma_record_key(p0, self.levels@, i as int, before, self.levels@[i as int].id);
            }
            i = i + 1;
        }
        proof {
            lemma_all_taken(self.levels@);
            assert(p0 + keys_of(self.levels@) =~= keys_of(self.levels@));
        }
        let ghost p1 = id_views(ids@);
        if self.levels.len() == 0 {
            return Err(ModelError::MissingLevel);
        }
        let mut i: usize = 0;
        while i < self.standards_packs.len()
            invariant
                i <= self.standards_packs.len(),
                forall|t: int| 0 <= t < i ==> pack_valid(#[trigger] self.standards_packs@[t]),
                id_views(ids@) == p1 + keys_of(self.standards_packs@.take(i as int)),
                id_views(ids@).no_duplicates(),
                whole == model_ids(*self),
                (p1 + keys_of(self.standards_packs@)).is_prefix_of(whole),
                p1 == keys_of(self.levels@),
                forall|t: int| 0 <= t < i ==> valid_id((#[trigger] self.standards_packs@[t]).id@),
                forall|t: int|
                    0 <= t < i ==> !#[trigger] (keys_of(self.levels@) + keys_of(self.standards_packs@.take(t))).contains(
                        self.standards_packs@[t].id@,
                    ),
            decreases self.standards_packs.len() - i,
        {
            let pack = &self.standards_packs[i];
            validate_element_id(&pack.id)?;
            let ghost before = ids@;
            proof {
                if model_valid(*self) {
                    lemma_next_key_fresh(whole, p1, self.standards_packs@, i as int);
                }
                assert forall|k: int|
                    #![trigger packs_pass(*self, k)]
                    i < k <= self.standards_packs@.len() && packs_pass(*self, k) implies !(keys_of(self.levels@) + keys_of(
                        self.standards_packs@.take(i as int),
                    )).contains(self.standards_packs@[i as int].id@) by {
                    let ps = self.standards_packs@.take(k);
                    let w = keys_of(self.levels@) + keys_of(ps);
                    assert(w.subrange(0, w.len() as int) =~= w);
                    lemma_next_key_fresh(w, keys_of(self.levels@), ps, i as int);
                    assert(ps.take(i as int) =~= self.standards_packs@.take(i as int));
                }
            }
            insert_unique_id(&mut ids, &pack.id)?;
            proof {
                lemma_record_key(p1, self.standards_packs@, i as int, before, pack.id);
            }
            pack.validate()?;
            i = i + 1;
        }
        proof {
            lemma_all_taken(self.standards_packs@);
            assert forall|i: int| !#[trigger] pack_id_repeats(*self, i) by {}
        }
        let ghost p2 = id_views(ids@);
        let mut seen: Vec<ElementId> = Vec::new();
        let mut i: usize = 0;
        while i < self.standards.len()
            invariant
                i <= self.standards.len(),
                id_views(seen@) == id_views(self.standards@.subrange(0, i as int)),
                forall|t: int| 0 <= t < i ==> valid_id((#[trigger] self.standards@[t])@) && key_index(self.standards_packs@, self.standards@[t]@) >= 0,
                forall|a: int, b: int| 0 <= a < b < i ==> self.standards@[a]@ != self.standards@[b]@,
                forall|k: int| !#[trigger] pack_id_repeats(*self, k),
            decreases self.standards.len() - i,
        {
            let pack = &self.standards[i];
            validate_element_id(pack)?;
            let ghost before = seen@;
            proof {
                if id_views(seen@).contains(pack@) {
                    let a = choose|a: int| 0 <= a < id_views(seen@).len() && id_views(seen@)[a] == pack@;
                    assert(id_views(self.standards@.subrange(0, i as int))[a] == self.standards@[a]@);
                    assert(self.standards@[a]@ == self.standards@[i as int]@);
                }
            }
            if insert_unique_id(&mut seen, pack).is_err() {
                return Err(ModelError::StandardsStackDuplicatePack { pack: pack.clone() });
            }
            proof {
                assert forall|a: int| 0 <= a < i implies self.standards@[a]@ != pack@ by {
                    assert(id_views(before)[a] == id_views(self.standards@.subrange(0, i as int))[a]);
                    assert(self.standards@.subrange(0, i as int)[a] == self.standards@[a]);
                }
            }
            if position_of(&self.standards_packs, pack.as_str()).is_none() {
                return Err(ModelError::StandardsStackReferencesUnknownPack { pack: pack.clone() });
            }
            proof {
                lemma_id_views_push(before, *pack);
                lemma_id_views_push(self.standards@.subrange(0, i as int), *pack);
                assert(self.standards@.subrange(0, i + 1) =~= self.standards@.subrange(0, i as int).push(*pack));
            }
            i = i + 1;
        }
        proof {
            assert forall|k: int| !#[trigger] stack_entry_repeats(*self, k) by {}
        }
        let mut material_ids: Vec<ElementId> = Vec::new();
        let mut i: usize = 0;
        while i < self.materials.len()
            invariant
                front_clear(*self),
                i <= self.materials.len(),
                id_views(material_ids@) == self.materials@.subrange(0, i as int).map_values(|x: Material| x.id@),
                forall|t: int| 0 <= t < i ==> valid_id((#[trigger] self.materials@[t]).id@) && appearance_valid(self.materials@[t].appearance),
                id_views(ids@) == p2 + keys_of(self.materials@.take(i as int)),
                id_views(ids@).no_duplicates(),
                whole == model_ids(*self),
                (p2 + keys_of(self.materials@)).is_prefix_of(whole),
            decreases self.materials.len() - i,
        {
            let material = &self.materials[i];
            validate_element_id(&material.id)?;
            let ghost before_ids = ids@;
            proof {
                if model_valid(*self) {
                    lemma_next_key_fresh(whole, p2, self.materials@, i as int);
                }
            }
            insert_unique_id(&mut ids, &material.id)?;
            proof {
                lemma_record_key(p2, self.materials@, i as int, before_ids, material.id);
            }
            material.validate()?;
            let ghost before = material_ids@;
            material_ids.push(material.id.clone());
            proof {
                lemma_id_views_push(before, material.id);
                lemma_map_prefix_push(self.materials@, i as int, |x: Material| x.id@);
            }
            i = i + 1;
        }
        proof {
            assert(self.materials@.subrange(0, i as int) =~= self.materials@);
            lemma_all_taken(self.materials@);
        }
        let ghost p3 = id_views(ids@);
        let mut i: usize = 0;
        while i < self.systems.len()
            invariant
                front_clear(*self),
                i <= self.systems.len(),
                id_views(material_ids@) == self.materials@.map_values(|x: Material| x.id@),
                forall|t: int| 0 <= t < i ==> valid_id((#[trigger] self.systems@[t]).id@) && system_layers_valid(
                    self.systems@[t],
                    self.materials@.map_values(|x: Material| x.id@),
                ),
                id_views(ids@) == p3 + keys_of(self.systems@.take(i as int)),
                id_views(ids@).no_duplicates(),
                whole == model_ids(*self),
                (p3 + keys_of(self.systems@)).is_prefix_of(whole),
            decreases self.systems.len() - i,
        {
            let ghost before = ids@;
            proof {
                if model_valid(*self) {
                    lemma_next_key_fresh(whole, p3, self.systems@, i as int);
                }
            }
            self.systems[i].validate(&material_ids, &mut ids)?;
            proof {
                lemma_record_key(p3, self.systems@, i as int, before, self.systems@[i as int].id);
            }
            i = i + 1;
        }
        proof {
            lemma_all_taken(self.systems@);
        }
        let ghost p4 = id_views(ids@);
        let mut i: usize = 0;
        while i < self.furnishings.len()
            invariant
                front_clear(*self),
                i <= self.furnishings.len(),
                forall|t: int| 0 <= t < i ==> valid_id((#[trigger] self.furnishings@[t]).id@) && size_positive(self.furnishings@[t].size),
                id_views(ids@) == p4 + keys_of(self.furnishings@.take(i as int)),
                id_views(ids@).no_duplicates(),
                whole == model_ids(*self),
                (p4 + keys_of(self.furnishings@)).is_prefix_of(whole),
            decreases self.furnishings.len() - i,
        {
            let ghost before = ids@;
            proof {
                if model_valid(*self) {
                    lemma_next_key_fresh(whole, p4, self.furnishings@, i as int);
                }
            }
            self.furnishings[i].validate(&mut ids)?;
            proof {
                lemma_record_key(p4, self.furnishings@, i as int, before, self.furnishings@[i as int].id);
            }
            i = i + 1;
        }
        proof {
            lemma_all_taken(self.furnishings@);
        }
        let ghost p5 = id_views(ids@);
        let mut i: usize = 0;
        while i < self.mep_objects.len()
            invariant
                front_clear(*self),
                i <= self.mep_objects.len(),
                forall|t: int| 0 <= t < i ==> valid_id((#[trigger] self.mep_objects@[t]).id@) && size_positive(self.mep_objects@[t].size),
                id_views(ids@) == p5 + keys_of(self.mep_objects@.take(i as int)),
                id_views(ids@).no_duplicates(),
                whole == model_ids(*self),
                (p5 + keys_of(self.mep_objects@)).is_prefix_of(whole),
            decreases self.mep_objects.len() - i,
        {
            let ghost before = ids@;
            proof {
                if model_valid(*self) {
                    lemma_next_key_fresh(whole, p5, self.mep_objects@, i as int);
                }
            }
            self.mep_objects[i].validate(&mut ids)?;
            proof {
                lemma_record_key(p5, self.mep_objects@, i as int, before, self.mep_objects@[i as int].id);
            }
            i = i + 1;
        }
        proof {
            lemma_all_taken(self.mep_objects@);
        }
        let ghost p6 = id_views(ids@);
        let mut i: usize = 0;
        while i < self.walls.len()
            invariant
                front_clear(*self),
                i <= self.walls.len(),
                model_fits(*self),
                forall|t: int| 0 <= t < i ==> wall_ok(*self, #[trigger] self.walls@[t]),
                id_views(ids@) == p6 + walls_ids(self.walls@.take(i as int)),
                id_views(ids@).no_duplicates(),
                whole == model_ids(*self),
                (p6 + walls_ids(self.walls@)).is_prefix_of(whole),
            decreases self.walls.len() - i,
        {
            let wall = &self.walls[i];
            assert(driving_values_fit(self.walls@[i as int].dimensions@));
            wall.validate()?;
            let ghost before = ids@;
            let ghost s0 = id_views(ids@);
            proof {
                lemma_walls_ids_prefix(self.walls@, i + 1);
                lemma_walls_ids_step(self.walls@, i as int);
                lemma_prefix_behind(p6, walls_ids(self.walls@.take(i + 1)), walls_ids(self.walls@), whole);
                assert(s0 + wall_own_ids(*wall) =~= p6 + walls_ids(self.walls@.take(i + 1)));
                if model_valid(*self) {
                    lemma_fresh_in_prefix(whole, s0, wall_own_ids(*wall), 0);
                    assert(s0 + wall_own_ids(*wall).take(0) =~= s0);
                }
            }
            insert_unique_id(&mut ids, &wall.id)?;
            proof {
                lemma_record_one(before, wall.id);
            }
            let ghost q0 = id_views(ids@);
            if !level_exists(&self.levels, &wall.level) {
                return Err(ModelError::WallReferencesUnknownLevel { wall: wall.id.clone(), level: wall.level.clone() });
            }
            match check_system_kind(&self.systems, &wall.system, SystemKind::Wall) {
                Ok(()) => {},
                Err(true) => {
                    return Err(ModelError::WallSystemWrongKind { wall: wall.id.clone(), system: wall.system.clone() });
                },
                Err(false) => {
                    return Err(ModelError::WallReferencesUnknownSystem { wall: wall.id.clone(), system: wall.system.clone() });
                },
            }
            let mut k: usize = 0;
            while k < wall.openings.len()
                invariant
                    front_clear(*self),
                    k <= wall.openings.len(),
                    id_views(ids@) == q0 + keys_of(wall.openings@.take(k as int)),
                    id_views(ids@).no_duplicates(),
                    q0 == s0.push(wall.id@),
                    whole == model_ids(*self),
                    (s0 + wall_own_ids(*wall)).is_prefix_of(whole),
                decreases wall.openings.len() - k,
            {
                let ghost b = ids@;
                proof {
                    if model_valid(*self) {
                        let t = wall_own_ids(*wall);
                        lemma_fresh_in_prefix(whole, s0, t, 1 + k);
                        assert(s0 + t.take(1 + k) =~= q0 + keys_of(wall.openings@.take(k as int)));
                        assert(t[1 + k] == wall.openings@[k as int].key());
                    }
                }
                insert_unique_id(&mut ids, &wall.openings[k].id)?;
                proof {
                    lemma_record_key(q0, wall.openings@, k as int, b, wall.openings@[k as int].id);
                }
                k = k + 1;
            }
            proof {
                lemma_all_taken(wall.openings@);
            }
            let ghost q1 = id_views(ids@);
            let mut k: usize = 0;
            while k < wall.dimensions.len()
                invariant
                    front_clear(*self),
                    k <= wall.dimensions.len(),
                    id_views(ids@) == q1 + keys_of(wall.dimensions@.take(k as int)),
                    id_views(ids@).no_duplicates(),
                    q1 == s0.push(wall.id@) + keys_of(wall.openings@),
                    whole == model_ids(*self),
                    (s0 + wall_own_ids(*wall)).is_prefix_of(whole),
                decreases wall.dimensions.len() - k,
            {
                let ghost b = ids@;
                proof {
                    if model_valid(*self) {
                        let t = wall_own_ids(*wall);
                        let j = 1 + wall.openings@.len() + k;
                        lemma_fresh_in_prefix(whole, s0, t, j);
                        assert(s0 + t.take(j) =~= q1 + keys_of(wall.dimensions@.take(k as int)));
                        assert(t[j] == wall.dimensions@[k as int].key());
                    }
                }
                insert_unique_id(&mut ids, &wall.dimensions[k].id)?;
                proof {
                    lemma_record_key(q1, wall.dimensions@, k as int, b, wall.dimensions@[k as int].id);
                }
                k = k + 1;
            }
            proof {
                lemma_all_taken(wall.dimensions@);
            }
            let ghost q2 = id_views(ids@);
            let mut k: usize = 0;
            while k < wall.bracing.len()
                invariant
                    front_clear(*self),
                    k <= wall.bracing.len(),
                    forall|t: int| 0 <= t < k ==> panel_ok(*wall, #[trigger] wall.bracing@[t]),
                    id_views(ids@) == q2 + keys_of(wall.bracing@.take(k as int)),
                    id_views(ids@).no_duplicates(),
                    q2 == s0.push(wall.id@) + keys_of(wall.openings@) + keys_of(wall.dimensions@),
                    whole == model_ids(*self),
                    (s0 + wall_own_ids(*wall)).is_prefix_of(whole),
                    model_valid(*self) ==> forall|t: int| 0 <= t < wall.bracing@.len() ==> panel_ok(*wall, #[trigger] wall.bracing@[t]),
                decreases wall.bracing.len() - k,
            {
                let panel = &wall.bracing[k];
                validate_element_id(&panel.id)?;
                let ghost b = ids@;
                proof {
                    if model_valid(*self) {
                        let t = wall_own_ids(*wall);
                        let j = 1 + wall.openings@.len() + wall.dimensions@.len() + k;
                        lemma_fresh_in_prefix(whole, s0, t, j);
                        assert(s0 + t.take(j) =~= q2 + keys_of(wall.bracing@.take(k as int)));
                        assert(t[j] == wall.bracing@[k as int].key());
                    }
                }
                insert_unique_id(&mut ids, &panel.id)?;
                proof {
                    lemma_record_key(q2, wall.bracing@, k as int, b, panel.id);
                }
                if panel.length.ticks <= 0 {
                    return Err(ModelError::BracingPanelInvalidLength { wall: wall.id.clone(), panel: panel.id.clone() });
                }
                if panel.offset.ticks < 0 || panel.offset.ticks as i128 + panel.length.ticks as i128 > wall.length.ticks as i128 {
                    return Err(ModelError::BracingPanelOutOfBounds { wall: wall.id.clone(), panel: panel.id.clone() });
                }
                k = k + 1;
            }
            proof {
                lemma_all_taken(wall.bracing@);
                lemma_walls_ids_step(self.walls@, i as int);
                assert(p6 + walls_ids(self.walls@.take(i + 1)) =~= id_views(ids@));
            }
            i = i + 1;
        }
        proof {
            assert(self.walls@.take(self.walls@.len() as int) =~= self.walls@);
        }
        let ghost p7 = id_views(ids@);
        let mut i: usize = 0;
        while i < self.wall_joins.len()
            invariant
                front_clear(*self),
                i <= self.wall_joins.len(),
                model_fits(*self),
                forall|t: int| 0 <= t < i ==> join_ok(*self, #[trigger] self.wall_joins@[t]),
                id_views(ids@) == p7 + keys_of(self.wall_joins@.take(i as int)),
                id_views(ids@).no_duplicates(),
                whole == model_ids(*self),
                (p7 + keys_of(self.wall_joins@)).is_prefix_of(whole),
            decreases self.wall_joins.len() - i,
        {
            let join = &self.wall_joins[i];
            join.validate()?;
            let ghost before = ids@;
            proof {
                if model_valid(*self) {
                    lemma_next_key_fresh(whole, p7, self.wall_joins@, i as int);
                }
            }
            insert_unique_id(&mut ids, &join.id)?;
            proof {
                lemma_record_key(p7, self.wall_joins@, i as int, before, join.id);
            }
            let a = match position_of(&self.walls, join.first_wall.as_str()) {
                Some(a) => a,
                None => {
                    return Err(ModelError::JoinReferencesUnknownWall { join: join.id.clone(), wall: join.first_wall.clone() });
                },
            };
            let b = match position_of(&self.walls, join.second_wall.as_str()) {
                Some(b) => b,
                None => {
                    return Err(ModelError::JoinReferencesUnknownWall { join: join.id.clone(), wall: join.second_wall.clone() });
                },
            };
            let first = &self.walls[a];
            let second = &self.walls[b];
            proof {
                assert(point_on_segment_fits(self.walls@[a as int], self.wall_joins@[i as int].point));
                assert(point_on_segment_fits(self.walls@[b as int], self.wall_joins@[i as int].point));
            }
            let connects = match join.kind {
                WallJoinKind::Corner | WallJoinKind::EndToEnd => first.has_endpoint(join.point) && second.has_endpoint(join.point),
                WallJoinKind::Tee => (first.has_endpoint(join.point) && second.point_on_interior(join.point)) || (second.has_endpoint(
                    join.point,
                ) && first.point_on_interior(join.point)),
                WallJoinKind::Cross => first.point_on_interior(join.point) && second.point_on_interior(join.point),
            };
            if !connects {
                return Err(ModelError::JoinPointDoesNotConnectWalls { join: join.id.clone() });
            }
            i = i + 1;
        }
        proof {
            lemma_all_taken(self.wall_joins@);
        }
        let ghost p8 = id_views(ids@);
        let mut i: usize = 0;
        while i < self.furnishing_instances.len()
            invariant
                front_clear(*self),
                i <= self.furnishing_instances.len(),
                forall|t: int| 0 <= t < i ==> {
                    let x = #[trigger] self.furnishing_instances@[t];
                    valid_id(x.id@) && level_known(*self, x.level@) && key_index(self.furnishings@, x.family@) >= 0
                },
                id_views(ids@) == p8 + keys_of(self.furnishing_instances@.take(i as int)),
                id_views(ids@).no_duplicates(),
                whole == model_ids(*self),
                (p8 + keys_of(self.furnishing_instances@)).is_prefix_of(whole),
            decreases self.furnishing_instances.len() - i,
        {
            let instance = &self.furnishing_instances[i];
            let ghost before = ids@;
            proof {
                if model_valid(*self) {
                    lemma_next_key_fresh(whole, p8, self.furnishing_instances@, i as int);
                    lemma_key_found(self.furnishings@, instance.family@);
                    lemma_key_found(self.levels@, instance.level@);
                    assert(valid_id(self.furnishings@[key_index(self.furnishings@, instance.family@)].id@));
                    assert(valid_id(self.levels@[key_index(self.levels@, instance.level@)].id@));
                }
            }
            instance.validate(&mut ids)?;
            proof {
                lemma_record_key(p8, self.furnishing_instances@, i as int, before, instance.id);
            }
            if !level_exists(&self.levels, &instance.level) {
                return Err(ModelError::FurnishingInstanceReferencesUnknownLevel { instance: instance.id.clone(), level: instance.level.clone() });
            }
            if position_of(&self.furnishings, instance.family.as_str()).is_none() {
                return Err(ModelError::FurnishingInstanceReferencesUnknownFamily { instance: instance.id.clone(), family: instance.family.clone() });
            }
            i = i + 1;
        }
        proof {
            lemma_all_taken(self.furnishing_instances@);
        }
        let ghost p9 = id_views(ids@);
        let mut i: usize = 0;
        while i < self.mep_instances.len()
            invariant
                front_clear(*self),
                i <= self.mep_instances.len(),
                forall|t: int| 0 <= t < i ==> {
                    let x = #[trigger] self.mep_instances@[t];
                    valid_id(x.id@) && level_known(*self, x.level@) && key_index(self.mep_objects@, x.family@) >= 0
                },
                id_views(ids@) == p9 + keys_of(self.mep_instances@.take(i as int)),
                id_views(ids@).no_duplicates(),
                whole == model_ids(*self),
                (p9 + keys_of(self.mep_instances@)).is_prefix_of(whole),
            decreases self.mep_instances.len() - i,
        {
            let instance = &self.mep_instances[i];
            let ghost before = ids@;
            proof {
                if model_valid(*self) {
                    lemma_next_key_fresh(whole, p9, self.mep_instances@, i as int);
                    lemma_key_found(self.mep_objects@, instance.family@);
                    lemma_key_found(self.levels@, instance.level@);
                    assert(valid_id(self.mep_objects@[key_index(self.mep_objects@, instance.family@)].id@));
                    assert(valid_id(self.levels@[key_index(self.levels@, instance.level@)].id@));
                }
            }
            instance.validate(&mut ids)?;
            proof {
                lemma_record_key(p9, self.mep_instances@, i as int, before, instance.id);
            }
            if !level_exists(&self.levels, &instance.level) {
                return Err(ModelError::MepInstanceReferencesUnknownLevel { instance: instance.id.clone(), level: instance.level.clone() });
            }
            if position_of(&self.mep_objects, instance.family.as_str()).is_none() {
                return Err(ModelError::MepInstanceReferencesUnknownFamily { instance: instance.id.clone(), family: instance.family.clone() });
            }
            i = i + 1;
        }
        proof {
            lemma_all_taken(self.mep_instances@);
        }
        let ghost p10 = id_views(ids@);
        let mut i: usize = 0;
        while i < self.braced_wall_lines.len()
            invariant
                front_clear(*self),
                i <= self.braced_wall_lines.len(),
                forall|t: int| 0 <= t < i ==> {
                    let x = #[trigger] self.braced_wall_lines@[t];
                    valid_id(x.id@) && level_known(*self, x.level@)
                },
                id_views(ids@) == p10 + keys_of(self.braced_wall_lines@.take(i as int)),
                id_views(ids@).no_duplicates(),
                whole == model_ids(*self),
                (p10 + keys_of(self.braced_wall_lines@)).is_prefix_of(whole),
            decreases self.braced_wall_lines.len() - i,
        {
            let line = &self.braced_wall_lines[i];
            proof {
                if model_valid(*self) {
                    lemma_next_key_fresh(whole, p10, self.braced_wall_lines@, i as int);
                    lemma_key_found(self.levels@, line.level@);
                    assert(valid_id(self.levels@[key_index(self.levels@, line.level@)].id@));
                }
            }
            validate_element_id(&line.id)?;
            validate_element_id(&line.level)?;
            let ghost before = ids@;
            insert_unique_id(&mut ids, &line.id)?;
            proof {
                lemma_record_key(p10, self.braced_wall_lines@, i as int, before, line.id);
            }
            if !level_exists(&self.levels, &line.level) {
                return Err(ModelError::BracedWallLineReferencesUnknownLevel { braced_wall_line: line.id.clone(), level: line.level.clone() });
            }
            i = i + 1;
        }
        proof {
            lemma_all_taken(self.braced_wall_lines@);
        }
        let ghost p11 = id_views(ids@);
        let mut room_ids: Vec<ElementId> = Vec::new();
        let mut i: usize = 0;
        while i < self.rooms.len()
            invariant
                front_clear(*self),
                i <= self.rooms.len(),
                id_views(room_ids@) == self.rooms@.subrange(0, i as int).map_values(|r: Room| r.id@),
                forall|t: int| 0 <= t < i ==> valid_id((#[trigger] self.rooms@[t]).id@) && level_known(*self, self.rooms@[t].level@),
                id_views(ids@) == p11 + keys_of(self.rooms@.take(i as int)),
                id_views(ids@).no_duplicates(),
                whole == model_ids(*self),
                (p11 + keys_of(self.rooms@)).is_prefix_of(whole),
            decreases self.rooms.len() - i,
        {
            let room = &self.rooms[i];
            proof {
                if model_valid(*self) {
                    lemma_next_key_fresh(whole, p11, self.rooms@, i as int);
                }
            }
            validate_element_id(&room.id)?;
            let ghost before_ids = ids@;
            insert_unique_id(&mut ids, &room.id)?;
            proof {
                lemma_record_key(p11, self.rooms@, i as int, before_ids, room.id);
            }
            if !level_exists(&self.levels, &room.level) {
                return Err(ModelError::RoomReferencesUnknownLevel { room: room.id.clone(), level: room.level.clone() });
            }
            let ghost before = room_ids@;
            room_ids.push(room.id.clone());
            proof {
                lemma_id_views_push(before, room.id);
                lemma_map_prefix_push(self.rooms@, i as int, |r: Room| r.id@);
            }
            i = i + 1;
        }
        proof {
            assert(self.rooms@.subrange(0, i as int) =~= self.rooms@);
            lemma_all_taken(self.rooms@);
        }
        let ghost p12 = id_views(ids@);
        let mut i: usize = 0;
        while i < self.roof_planes.len()
            invariant
                front_clear(*self),
                i <= self.roof_planes.len(),
                model_fits(*self),
                forall|t: int| 0 <= t < i ==> {
                    let x = #[trigger] self.roof_planes@[t];
                    valid_id(x.id@) && level_known(*self, x.level@) && system_of_kind(*self, x.system@, SystemKind::Roof)
                        && roof_geometry_valid(x) && roof_openings_sound(x)
                },
                id_views(ids@) == p12 + roofs_ids(self.roof_planes@.take(i as int)),
                id_views(ids@).no_duplicates(),
                whole == model_ids(*self),
                (p12 + roofs_ids(self.roof_planes@)).is_prefix_of(whole),
            decreases self.roof_planes.len() - i,
        {
            let roof = &self.roof_planes[i];
            validate_element_id(&roof.id)?;
            let ghost before = ids@;
            let ghost s0 = id_views(ids@);
            proof {
                lemma_roofs_ids_prefix(self.roof_planes@, i + 1);
                lemma_roofs_ids_step(self.roof_planes@, i as int);
                lemma_prefix_behind(p12, roofs_ids(self.roof_planes@.take(i + 1)), roofs_ids(self.roof_planes@), whole);
                assert(s0 + roof_own_ids(*roof) =~= p12 + roofs_ids(self.roof_planes@.take(i + 1)));
                if model_valid(*self) {
                    let t = roof_own_ids(*roof);
                    lemma_fresh_in_prefix(whole, s0, t, 0);
                    assert(s0 + t.take(0) =~= s0);
                    assert forall|k: int| 0 <= k < roof.openings@.len() implies !s0.push(roof.id@).contains(
                        #[trigger] roof.openings@[k].id@,
                    ) by {
                        lemma_fresh_in_prefix(whole, s0, t, 1 + k);
                        assert(t[1 + k] == roof.openings@[k].id@);
                        if s0.push(roof.id@).contains(roof.openings@[k].id@) {
                            let x = choose|x: int| 0 <= x < s0.push(roof.id@).len() && s0.push(roof.id@)[x] == roof.openings@[k].id@;
                            assert((s0 + t.take(1 + k))[x] == s0.push(roof.id@)[x]);
                        }
                    }
                    assert forall|a: int, b: int| 0 <= a < b < roof.openings@.len() implies roof.openings@[a].id@
                        != roof.openings@[b].id@ by {
                        lemma_fresh_in_prefix(whole, s0, t, 1 + b);
                        assert((s0 + t.take(1 + b))[s0.len() + 1 + a] == roof.openings@[a].id@);
                        assert(t[1 + b] == roof.openings@[b].id@);
                    }
                }
            }
            insert_unique_id(&mut ids, &roof.id)?;
            proof {
                lemma_record_one(before, roof.id);
            }
            let ghost q0 = id_views(ids@);
            if !level_exists(&self.levels, &roof.level) {
                return Err(ModelError::RoofPlaneReferencesUnknownLevel { roof_plane: roof.id.clone(), level: roof.level.clone() });
            }
            match check_system_kind(&self.systems, &roof.system, SystemKind::Roof) {
                Ok(()) => {},
                Err(true) => {
                    return Err(ModelError::RoofPlaneSystemWrongKind { roof_plane: roof.id.clone(), system: roof.system.clone() });
                },
                Err(false) => {
                    return Err(ModelError::RoofPlaneReferencesUnknownSystem { roof_plane: roof.id.clone(), system: roof.system.clone() });
                },
            }
            assert(diffs_fit(self.roof_planes@[i as int].outline@));
            roof.validate_geometry(&mut ids)?;
            proof {
                let os = roof.openings@.map_values(|o: RoofOpening| o.id@);
                assert(keys_of(roof.openings@) =~= os);
                assert forall|a: int, b: int| 0 <= a < os.len() && 0 <= b < os.len() && a != b implies os[a] != os[b] by {
                    if a < b {
                        assert(roof.openings@[a].id@ != roof.openings@[b].id@);
                    } else {
                        assert(roof.openings@[b].id@ != roof.openings@[a].id@);
                    }
                }
                assert forall|k: int| 0 <= k < os.len() implies !q0.contains(#[trigger] os[k]) by {
                    assert(!q0.contains(roof.openings@[k].id@));
                }
                lemma_concat_distinct(q0, os);
                lemma_roofs_ids_step(self.roof_planes@, i as int);
                assert(p12 + roofs_ids(self.roof_planes@.take(i + 1)) =~= id_views(ids@));
            }
            i = i + 1;
        }
        proof {
            assert(self.roof_planes@.take(self.roof_planes@.len() as int) =~= self.roof_planes@);
        }
        let ghost p13 = id_views(ids@);
        let mut a: usize = 0;
        while a < self.roof_planes.len()
            invariant
                front_clear(*self),
                a <= self.roof_planes.len(),
                forall|x: int, y: int|
                    0 <= x < a && x < y < self.roof_planes@.len() && self.roof_planes@[x].level@ == self.roof_planes@[y].level@
                        && roofs_share_edge(#[trigger] self.roof_planes@[x], #[trigger] self.roof_planes@[y])
                        ==> self.roof_planes@[x].eave_overhang == self.roof_planes@[y].eave_overhang
                        && self.roof_planes@[x].rake_overhang == self.roof_planes@[y].rake_overhang,
            decreases self.roof_planes.len() - a,
        {
            let mut b: usize = a + 1;
            while b < self.roof_planes.len()
                invariant
                    front_clear(*self),
                    a < self.roof_planes.len(),
                    a + 1 <= b <= self.roof_planes.len(),
                    forall|x: int, y: int|
                        0 <= x < a && x < y < self.roof_planes@.len() && self.roof_planes@[x].level@ == self.roof_planes@[y].level@
                            && roofs_share_edge(#[trigger] self.roof_planes@[x], #[trigger] self.roof_planes@[y])
                            ==> self.roof_planes@[x].eave_overhang == self.roof_planes@[y].eave_overhang
                            && self.roof_planes@[x].rake_overhang == self.roof_planes@[y].rake_overhang,
                    forall|y: int|
                        a < y < b && self.roof_planes@[a as int].level@ == self.roof_planes@[y].level@ && roofs_share_edge(
                            self.roof_planes@[a as int],
                            #[trigger] self.roof_planes@[y],
                        ) ==> self.roof_planes@[a as int].eave_overhang == self.roof_planes@[y].eave_overhang
                            && self.roof_planes@[a as int].rake_overhang == self.roof_planes@[y].rake_overhang,
                decreases self.roof_planes.len() - b,
            {
                let first = &self.roof_planes[a];
                let second = &self.roof_planes[b];
                if first.level == second.level && roof_edges_shared(first, second) && (first.eave_overhang != second.eave_overhang
                    || first.rake_overhang != second.rake_overhang) {
                    return Err(ModelError::RoofPlaneConnectedOverhangMismatch { first: first.id.clone(), second: second.id.clone() });
                }
                b = b + 1;
            }
            a = a + 1;
        }
        let mut i: usize = 0;
        while i < self.ceilings.len()
            invariant
                front_clear(*self),
                i <= self.ceilings.len(),
                model_fits(*self),
                id_views(room_ids@) == self.rooms@.map_values(|r: Room| r.id@),
                forall|t: int| 0 <= t < i ==> ceiling_ok(*self, #[trigger] self.ceilings@[t]),
                id_views(ids@) == p13 + keys_of(self.ceilings@.take(i as int)),
                id_views(ids@).no_duplicates(),
                whole == model_ids(*self),
                (p13 + keys_of(self.ceilings@)).is_prefix_of(whole),
            decreases self.ceilings.len() - i,
        {
            let ceiling = &self.ceilings[i];
            proof {
                if model_valid(*self) {
                    lemma_next_key_fresh(whole, p13, self.ceilings@, i as int);
                }
            }
            validate_element_id(&ceiling.id)?;
            let ghost before = ids@;
            insert_unique_id(&mut ids, &ceiling.id)?;
            proof {
                lemma_record_key(p13, self.ceilings@, i as int, before, ceiling.id);
            }
            if !level_exists(&self.levels, &ceiling.level) {
                return Err(ModelError::CeilingReferencesUnknownLevel { ceiling: ceiling.id.clone(), level: ceiling.level.clone() });
            }
            match check_system_kind(&self.systems, &ceiling.system, SystemKind::Ceiling) {
                Ok(()) => {},
                Err(true) => {
                    return Err(ModelError::CeilingSystemWrongKind { ceiling: ceiling.id.clone(), system: ceiling.system.clone() });
                },
                Err(false) => {
                    return Err(ModelError::CeilingReferencesUnknownSystem { ceiling: ceiling.id.clone(), system: ceiling.system.clone() });
                },
            }
            assert(region_fits(self.ceilings@[i as int].region));
            validate_surface_region(&ceiling.region, &room_ids, &ceiling.id)?;
            match &ceiling.slope {
                Some(slope) => {
                    match &ceiling.region {
                        SurfaceRegion::Polygon(points) => {
                            if slope.low_edge as usize >= points.len() {
                                return Err(ModelError::CeilingSlopeLowEdgeOutOfRange { ceiling: ceiling.id.clone() });
                            }
                        },
                        SurfaceRegion::Room(_) => {
                            return Err(ModelError::CeilingSlopeRequiresPolygonRegion { ceiling: ceiling.id.clone() });
                        },
                    }
                    if slope.pitch.run.ticks <= 0 {
                        return Err(ModelError::CeilingInvalidSlope { ceiling: ceiling.id.clone() });
                    }
                },
                None => {},
            }
            i = i + 1;
        }
        proof {
            lemma_all_taken(self.ceilings@);
        }
        let ghost p14 = id_views(ids@);
        let mut i: usize = 0;
        while i < self.floor_decks.len()
            invariant
                front_clear(*self),
                i <= self.floor_decks.len(),
                model_fits(*self),
                id_views(room_ids@) == self.rooms@.map_values(|r: Room| r.id@),
                forall|t: int| 0 <= t < i ==> deck_ok(*self, #[trigger] self.floor_decks@[t]),
                id_views(ids@) == p14 + keys_of(self.floor_decks@.take(i as int)),
                id_views(ids@).no_duplicates(),
                whole == model_ids(*self),
                (p14 + keys_of(self.floor_decks@)).is_prefix_of(whole),
            decreases self.floor_decks.len() - i,
        {
            let deck = &self.floor_decks[i];
            proof {
                if model_valid(*self) {
                    lemma_next_key_fresh(whole, p14, self.floor_decks@, i as int);
                }
            }
            validate_element_id(&deck.id)?;
            let ghost before = ids@;
            insert_unique_id(&mut ids, &deck.id)?;
            proof {
                lemma_record_key(p14, self.floor_decks@, i as int, before, deck.id);
            }
            if !level_exists(&self.levels, &deck.level) {
                return Err(ModelError::FloorDeckReferencesUnknownLevel { floor_deck: deck.id.clone(), level: deck.level.clone() });
            }
            match check_system_kind(&self.systems, &deck.system, SystemKind::Floor) {
                Ok(()) => {},
                Err(true) => {
                    return Err(ModelError::FloorDeckSystemWrongKind { floor_deck: deck.id.clone(), system: deck.system.clone() });
                },
                Err(false) => {
                    return Err(ModelError::FloorDeckReferencesUnknownSystem { floor_deck: deck.id.clone(), system: deck.system.clone() });
                },
            }
            assert(region_fits(self.floor_decks@[i as int].region));
            validate_surface_region(&deck.region, &room_ids, &deck.id)?;
            i = i + 1;
        }
        proof {
            lemma_all_taken(self.floor_decks@);
            assert(id_views(ids@) == model_ids(*self));
        }
        Ok(())
    }
}

// ---------------------------------------------------------------------------
// Moving walls
// ---------------------------------------------------------------------------

/// The walls after every endpoint at `old` moved to `new`.
pub open spec fn walls_after_move(before: Seq<Wall>, after: Seq<Wall>, old: Point2, new: Point2) -> bool {
    &&& after.len() == before.len()
    &&& forall|i: int| 0 <= i < before.len() ==> wall_after_move(#[trigger] before[i], after[i], old, new)
}

/// The ids of the walls with an endpoint at `old`, in order.
pub open spec fn touching_ids(walls: Seq<Wall>, old: Point2, k: int) -> Seq<Seq<char>>
    decreases k,
{
    if k <= 0 {
        Seq::empty()
    } else {
        let prefix = touching_ids(walls, old, k - 1);
        if walls[k - 1].start == old || walls[k - 1].end == old {
            prefix.push(walls[k - 1].id@)
        } else {
            prefix
        }
    }
}

impl BuildingModel {
    /// Moves every wall endpoint at `old_point` to `new_point`, resyncing each
    /// moved wall's length; the ids of the moved walls, in order.
    fn move_coincident_endpoints(&mut self, old_point: Point2, new_point: Point2) -> (r: Vec<ElementId>)
        requires
            moves_fit(old(self).walls@, old_point, new_point),
        ensures
            old_point == new_point ==> r@.len() == 0 && *final(self) == *old(self),
            old_point != new_point ==> walls_after_move(old(self).walls@, final(self).walls@, old_point, new_point)
                && id_views(r@) == touching_ids(old(self).walls@, old_point, old(self).walls@.len() as int),
            same_but_walls(*old(self), *final(self)),
    {
        if old_point == new_point {
            return Vec::new();
        }
        let mut rest: Vec<Wall> = Vec::new();
        std::mem::swap(&mut rest, &mut self.walls);
        let ghost all = rest@;
        let n = rest.len();
        let mut out: Vec<Wall> = Vec::new();
        let mut affected: Vec<ElementId> = Vec::new();
        while rest.len() > 0
            invariant
                n == all.len(),
                rest@.len() + out@.len() == n,
                rest@ == all.subrange(out@.len() as int, n as int),
                moves_fit(all, old_point, new_point),
                forall|i: int| 0 <= i < out@.len() ==> wall_after_move(#[trigger] all[i], out@[i], old_point, new_point),
                id_views(affected@) == touching_ids(all, old_point, out@.len() as int),
            decreases rest@.len(),
        {
            let ghost k = out@.len() as int;
            let mut wall = rest.remove(0);
            proof {
                assert(wall == all[k]);
            }
            let mut changed = false;
            if wall.start == old_point {
                wall.start = new_point;
                changed = true;
            }
            if wall.end == old_point {
                wall.end = new_point;
                changed = true;
            }
            if changed {
                match wall.placement_length() {
                    Some(length) => {
                        wall.length = length;
                    },
                    None => {},
                }
                let ghost before = affected@;
                affected.push(wall.id.clone());
                proof {
                    lemma_id_views_push(before, wall.id);
                }
            }
            out.push(wall);
            proof {
                assert(rest@ =~= all.subrange(out@.len() as int, n as int));
            }
        }
        self.walls = out;
        affected
    }

    /// Moves one end of `wall` to `new_point`, dragging every wall endpoint at the
    /// old point along; the ids of the moved walls (empty when the wall is
    /// unknown or the point does not change).
    pub fn move_wall_endpoint(&mut self, wall: &ElementId, which_end: WallEnd, new_point: Point2) -> (r: Vec<ElementId>)
        requires
            key_index(old(self).walls@, wall@) >= 0 ==> moves_fit(
                old(self).walls@,
                match which_end {
                    WallEnd::Start => old(self).walls@[key_index(old(self).walls@, wall@)].start,
                    WallEnd::End => old(self).walls@[key_index(old(self).walls@, wall@)].end,
                },
                new_point,
            ),
        ensures
            key_index(old(self).walls@, wall@) < 0 ==> r@.len() == 0 && *final(self) == *old(self),
            key_index(old(self).walls@, wall@) >= 0 ==> {
                let w = old(self).walls@[key_index(old(self).walls@, wall@)];
                let old_point = match which_end {
                    WallEnd::Start => w.start,
                    WallEnd::End => w.end,
                };
                &&& old_point == new_point ==> r@.len() == 0 && *final(self) == *old(self)
                &&& old_point != new_point ==> walls_after_move(old(self).walls@, final(self).walls@, old_point, new_point)
                    && id_views(r@) == touching_ids(old(self).walls@, old_point, old(self).walls@.len() as int)
            },
            same_but_walls(*old(self), *final(self)),
    {
        let old_point = match position_of(&self.walls, wall.as_str()) {
            Some(i) => match which_end {
                WallEnd::Start => self.walls[i].start,
                WallEnd::End => self.walls[i].end,
            },
            None => {
                return Vec::new();
            },
        };
        if old_point == new_point {
            return Vec::new();
        }
        self.move_coincident_endpoints(old_point, new_point)
    }

    /// Translates a whole wall by `(dx, dy)`, dragging the walls that share
    /// either endpoint; the ids of the moved walls, each once, in the order in
    /// which the two endpoint moves reached them.
    pub fn translate_wall(&mut self, wall: &ElementId, dx: Length, dy: Length) -> (r: Vec<ElementId>)
        requires
            key_index(old(self).walls@, wall@) >= 0 ==> {
                let w = old(self).walls@[key_index(old(self).walls@, wall@)];
                &&& fits(w.start.x.ticks + dx.ticks) && fits(w.start.y.ticks + dy.ticks)
                &&& fits(w.end.x.ticks + dx.ticks) && fits(w.end.y.ticks + dy.ticks)
                &&& translate_fits(old(self).walls@, w.start, shifted(w.start, dx, dy), w.end, shifted(w.end, dx, dy))
            },
        ensures
            key_index(old(self).walls@, wall@) < 0 ==> r@.len() == 0 && *final(self) == *old(self),
            dx.ticks == 0 && dy.ticks == 0 ==> r@.len() == 0 && *final(self) == *old(self),
            key_index(old(self).walls@, wall@) >= 0 && !(dx.ticks == 0 && dy.ticks == 0) ==> {
                let w = old(self).walls@[key_index(old(self).walls@, wall@)];
                let s2 = shifted(w.start, dx, dy);
                let e2 = shifted(w.end, dx, dy);
                exists|mid: Seq<Wall>|
                    #![trigger walls_after_move(old(self).walls@, mid, w.start, s2)]
                    {
                        &&& walls_after_move(old(self).walls@, mid, w.start, s2)
                        &&& walls_after_move(mid, final(self).walls@, w.end, e2)
                        &&& id_views(r@) == merge_ids(
                            touching_ids(old(self).walls@, w.start, old(self).walls@.len() as int),
                            touching_ids(mid, w.end, mid.len() as int),
                        )
                    }
            },
            same_but_walls(*old(self), *final(self)),
    {
        let (start, end) = match position_of(&self.walls, wall.as_str()) {
            Some(i) => (self.walls[i].start, self.walls[i].end),
            None => {
                return Vec::new();
            },
        };
        if dx.ticks == 0 && dy.ticks == 0 {
            return Vec::new();
        }
        let ghost w0 = self.walls@;
        let new_start = Point2::new(Length { ticks: start.x.ticks + dx.ticks }, Length { ticks: start.y.ticks + dy.ticks });
        proof {
            assert(new_start == shifted(start, dx, dy));
            lemma_translate_first_fits(w0, start, new_start, end, shifted(end, dx, dy));
        }
        let mut affected = self.move_coincident_endpoints(start, new_start);
        let ghost mid = self.walls@;
        let new_end = Point2::new(Length { ticks: end.x.ticks + dx.ticks }, Length { ticks: end.y.ticks + dy.ticks });
        proof {
            assert(new_end == shifted(end, dx, dy));
            lemma_translate_second_fits(w0, mid, start, new_start, end, new_end);
        }
        let more = self.move_coincident_endpoints(end, new_end);
        let ghost first = id_views(affected@);
        let ghost second = id_views(more@);
        let mut i: usize = 0;
        while i < more.len()
            invariant
                i <= more.len(),
                second == id_views(more@),
                id_views(affected@) == merge_ids(first, second.take(i as int)),
            decreases more.len() - i,
        {
            proof {
                assert(second.take(i as int + 1).drop_last() =~= second.take(i as int));
                assert(second.take(i as int + 1).last() == more@[i as int]@);
            }
            if !contains_id(&affected, &more[i]) {
                let ghost before = affected@;
                affected.push(more[i].clone());
                proof {
                    lemma_id_views_push(before, more@[i as int]);
                }
            }
            i = i + 1;
        }
        proof {
            assert(second.take(more@.len() as int) =~= second);
        }
        affected
    }
}

/// `p` shifted by `(dx, dy)`.
pub open spec fn shifted(p: Point2, dx: Length, dy: Length) -> Point2 {
    Point2 {
        x: Length { ticks: (p.x.ticks + dx.ticks) as i64 },
        y: Length { ticks: (p.y.ticks + dy.ticks) as i64 },
    }
}

/// Both endpoint moves of a translation keep every wall's axis-aligned length
/// in range: `s` to `s2` first, then `e` to `e2`.
pub open spec fn translate_fits(walls: Seq<Wall>, s: Point2, s2: Point2, e: Point2, e2: Point2) -> bool {
    &&& moves_fit(walls, s, s2)
    &&& forall|i: int| 0 <= i < walls.len() ==> placement_fits(
        moved(moved((#[trigger] walls[i]).start, s, s2), e, e2),
        moved(moved(walls[i].end, s, s2), e, e2),
    )
}

/// `a` followed by the items of `b` that it does not hold yet, in order.
pub open spec fn merge_ids(a: Seq<Seq<char>>, b: Seq<Seq<char>>) -> Seq<Seq<char>>
    decreases b.len(),
{
    if b.len() == 0 {
        a
    } else {
        let m = merge_ids(a, b.drop_last());
        if m.contains(b.last()) {
            m
        } else {
            m.push(b.last())
        }
    }
}

proof fn lemma_translate_first_fits(walls: Seq<Wall>, s: Point2, s2: Point2, e: Point2, e2: Point2)
    requires
        translate_fits(walls, s, s2, e, e2),
    ensures
        moves_fit(walls, s, s2),
{
}

proof fn lemma_translate_second_fits(walls: Seq<Wall>, mid: Seq<Wall>, s: Point2, s2: Point2, e: Point2, e2: Point2)
    requires
        translate_fits(walls, s, s2, e, e2),
        s != s2 ==> walls_after_move(walls, mid, s, s2),
        s == s2 ==> mid == walls,
    ensures
        moves_fit(mid, e, e2),
{
    assert forall|i: int| 0 <= i < mid.len() implies placement_fits(
        moved((#[trigger] mid[i]).start, e, e2),
        moved(mid[i].end, e, e2),
    ) by {
        assert(wall_after_move(walls[i], mid[i], s, s2) || s == s2);
    }
}

} // verus!
