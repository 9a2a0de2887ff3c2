//! Construction systems: ordered layer stacks (interior to exterior) and their
//! derived facts (framing layer, thickness, exposure, finish faces, R-value).

use vstd::prelude::*;

use crate::element::{ElementId, contains_id, id_views, insert_unique_id, valid_id, validate_element_id};
use crate::error::ModelError;
use crate::material::{Material, Provenance, r_per_inch_spec, r_value_spec};
use crate::units::Length;

verus! {

/// Dimensional lumber sizes.
#[derive(Debug, Clone, Copy, PartialEq, Eq, Hash, Structural)]
pub enum BoardProfile {
    TwoByFour,
    TwoBySix,
    TwoByEight,
    TwoByTen,
    TwoByTwelve,
}

impl BoardProfile {
    pub fn label(self) -> (r: &'static str)
        ensures
            r@ == match self {
                BoardProfile::TwoByFour => "2x4"@,
                BoardProfile::TwoBySix => "2x6"@,
                BoardProfile::TwoByEight => "2x8"@,
                BoardProfile::TwoByTen => "2x10"@,
                BoardProfile::TwoByTwelve => "2x12"@,
            },
    {
        match self {
            BoardProfile::TwoByFour => "2x4",
            BoardProfile::TwoBySix => "2x6",
            BoardProfile::TwoByEight => "2x8",
            BoardProfile::TwoByTen => "2x10",
            BoardProfile::TwoByTwelve => "2x12",
        }
    }

    /// Every profile is 1 1/2" (24 ticks) thick.
    pub fn thickness(self) -> (r: Length)
        ensures
            r.ticks == 24,
    {
        Length::from_ticks(24)
    }

    pub fn nominal_depth(self) -> (r: Length)
        ensures
            r.ticks == 16 * nominal_inches(self),
    {
        match self {
            BoardProfile::TwoByFour => Length::from_whole_inches(4),
            BoardProfile::TwoBySix => Length::from_whole_inches(6),
            BoardProfile::TwoByEight => Length::from_whole_inches(8),
            BoardProfile::TwoByTen => Length::from_whole_inches(10),
            BoardProfile::TwoByTwelve => Length::from_whole_inches(12),
        }
    }
}

/// The nominal depth of a profile in whole inches.
pub open spec fn nominal_inches(p: BoardProfile) -> int {
    match p {
        BoardProfile::TwoByFour => 4,
        BoardProfile::TwoBySix => 6,
        BoardProfile::TwoByEight => 8,
        BoardProfile::TwoByTen => 10,
        BoardProfile::TwoByTwelve => 12,
    }
}

/// Whether a wall faces the weather.
#[derive(Debug, Clone, Copy, PartialEq, Eq, Structural)]
pub enum WallExposure {
    Exterior,
    Interior,
}

impl WallExposure {
    pub fn label(self) -> (r: &'static str)
        ensures
            r@ == match self {
                WallExposure::Exterior => "Exterior"@,
                WallExposure::Interior => "Interior"@,
            },
    {
        match self {
            WallExposure::Exterior => "Exterior",
            WallExposure::Interior => "Interior",
        }
    }
}

/// Which face of a roof/ceiling/floor assembly a finish lookup resolves.
#[derive(Debug, Clone, Copy, PartialEq, Eq, Structural)]
pub enum AssemblyFace {
    Finished,
    Underside,
}

/// Authored sheathing intent for a wall.
#[derive(Debug, Clone, Copy, PartialEq, Eq, Structural)]
pub enum Sheathing {
    NoSheathing,
    Osb716,
    Plywood12,
    Plywood58,
}

impl Sheathing {
    pub fn label(self) -> (r: &'static str)
        ensures
            r@ == match self {
                Sheathing::NoSheathing => "None"@,
                Sheathing::Osb716 => "7/16\" OSB"@,
                Sheathing::Plywood12 => "1/2\" Plywood"@,
                Sheathing::Plywood58 => "5/8\" Plywood"@,
            },
    {
        match self {
            Sheathing::NoSheathing => "None",
            Sheathing::Osb716 => "7/16\" OSB",
            Sheathing::Plywood12 => "1/2\" Plywood",
            Sheathing::Plywood58 => "5/8\" Plywood",
        }
    }
}

/// The structural class of a construction system.
#[derive(Debug, Clone, Copy, PartialEq, Eq, Hash, Structural)]
pub enum SystemKind {
    Wall,
    Floor,
    Roof,
    Ceiling,
}

impl SystemKind {
    pub fn label(self) -> (r: &'static str)
        ensures
            r@ == match self {
                SystemKind::Wall => "Wall"@,
                SystemKind::Floor => "Floor"@,
                SystemKind::Roof => "Roof"@,
                SystemKind::Ceiling => "Ceiling"@,
            },
    {
        match self {
            SystemKind::Wall => "Wall",
            SystemKind::Floor => "Floor",
            SystemKind::Roof => "Roof",
            SystemKind::Ceiling => "Ceiling",
        }
    }
}

/// The structural role a layer plays in an assembly.
#[derive(Debug, Clone, Copy, PartialEq, Eq, Hash, Structural)]
pub enum LayerFunction {
    InteriorFinish,
    Framing,
    ContinuousInsulation,
    Sheathing,
    WeatherBarrier,
    AirGap,
    Cladding,
    Masonry,
    Structure,
    Roofing,
    Underlayment,
    CeilingFinish,
    Other,
}

impl LayerFunction {
    pub fn label(self) -> (r: &'static str)
        ensures
            r@ == match self {
                LayerFunction::InteriorFinish => "Interior finish"@,
                LayerFunction::Framing => "Framing"@,
                LayerFunction::ContinuousInsulation => "Continuous insulation"@,
                LayerFunction::Sheathing => "Sheathing"@,
                LayerFunction::WeatherBarrier => "Weather barrier"@,
                LayerFunction::AirGap => "Air gap"@,
                LayerFunction::Cladding => "Cladding"@,
                LayerFunction::Masonry => "Masonry"@,
                LayerFunction::Structure => "Structure"@,
                LayerFunction::Roofing => "Roofing"@,
                LayerFunction::Underlayment => "Underlayment"@,
                LayerFunction::CeilingFinish => "Ceiling finish"@,
                LayerFunction::Other => "Other"@,
            },
    {
        match self {
            LayerFunction::InteriorFinish => "Interior finish",
            LayerFunction::Framing => "Framing",
            LayerFunction::ContinuousInsulation => "Continuous insulation",
            LayerFunction::Sheathing => "Sheathing",
            LayerFunction::WeatherBarrier => "Weather barrier",
            LayerFunction::AirGap => "Air gap",
            LayerFunction::Cladding => "Cladding",
            LayerFunction::Masonry => "Masonry",
            LayerFunction::Structure => "Structure",
            LayerFunction::Roofing => "Roofing",
            LayerFunction::Underlayment => "Underlayment",
            LayerFunction::CeilingFinish => "Ceiling finish",
            LayerFunction::Other => "Other",
        }
    }
}

/// How framing members are laid out across a framing layer.
#[derive(Debug, Clone, Copy, PartialEq, Eq, Hash, Structural)]
pub enum FramingPattern {
    Single,
    Staggered,
    Double,
}

impl FramingPattern {
    pub fn label(self) -> (r: &'static str)
        ensures
            r@ == match self {
                FramingPattern::Single => "Single"@,
                FramingPattern::Staggered => "Staggered"@,
                FramingPattern::Double => "Double"@,
            },
    {
        match self {
            FramingPattern::Single => "Single",
            FramingPattern::Staggered => "Staggered",
            FramingPattern::Double => "Double",
        }
    }
}

/// The family of framing member a framing layer produces.
#[derive(Debug, Clone, Copy, PartialEq, Eq, Hash, Structural)]
pub enum MemberFamily {
    Stud,
    Rafter,
    CeilingJoist,
    FloorJoist,
    Truss,
}

impl MemberFamily {
    pub fn label(self) -> (r: &'static str)
        ensures
            r@ == match self {
                MemberFamily::Stud => "Stud"@,
                MemberFamily::Rafter => "Rafter"@,
                MemberFamily::CeilingJoist => "Ceiling joist"@,
                MemberFamily::FloorJoist => "Floor joist"@,
                MemberFamily::Truss => "Truss"@,
            },
    {
        match self {
            MemberFamily::Stud => "Stud",
            MemberFamily::Rafter => "Rafter",
            MemberFamily::CeilingJoist => "Ceiling joist",
            MemberFamily::FloorJoist => "Floor joist",
            MemberFamily::Truss => "Truss",
        }
    }
}

/// The framing detail of a framing layer.
#[derive(Debug)]
pub struct FramingSpec {
    pub member: BoardProfile,
    pub spacing: Length,
    pub pattern: FramingPattern,
    pub member_family: MemberFamily,
    pub cavity_material: Option<ElementId>,
}

impl Clone for FramingSpec {
    fn clone(&self) -> (r: Self)
        ensures
            r == *self,
    {
        FramingSpec {
            member: self.member,
            spacing: self.spacing,
            pattern: self.pattern,
            member_family: self.member_family,
            cavity_material: match &self.cavity_material {
                Some(c) => Some(c.clone()),
                None => None,
            },
        }
    }
}

/// One material layer of a construction system.
#[derive(Debug)]
pub struct ConstructionLayer {
    pub function: LayerFunction,
    pub material: ElementId,
    pub thickness: Length,
    pub framing: Option<FramingSpec>,
}

impl Clone for ConstructionLayer {
    fn clone(&self) -> (r: Self)
        ensures
            r == *self,
    {
        ConstructionLayer {
            function: self.function,
            material: self.material.clone(),
            thickness: self.thickness,
            framing: match &self.framing {
                Some(f) => Some(f.clone()),
                None => None,
            },
        }
    }
}

impl ConstructionLayer {
    pub fn new(function: LayerFunction, material: &str, thickness: Length) -> (r: ConstructionLayer)
        ensures
            r.function == function,
            r.material@ == material@,
            r.thickness == thickness,
            r.framing is None,
    {
        ConstructionLayer {
            function,
            material: ElementId::from_str(material),
            thickness,
            framing: None,
        }
    }

    pub fn with_framing(self, framing: FramingSpec) -> (r: ConstructionLayer)
        ensures
            r.function == self.function,
            r.material == self.material,
            r.thickness == self.thickness,
            r.framing == Some(framing),
    {
        ConstructionLayer { framing: Some(framing), ..self }
    }
}

/// A named, reusable construction system: an ordered stack of layers, interior to exterior.
#[derive(Debug, Clone)]
pub struct ConstructionSystem {
    pub id: ElementId,
    pub name: String,
    pub kind: SystemKind,
    pub source: Option<Provenance>,
    pub layers: Vec<ConstructionLayer>,
}

/// The index of the first layer at or after `i` whose function is `a` or `b`.
pub open spec fn first_layer_from(
    layers: Seq<ConstructionLayer>,
    a: LayerFunction,
    b: LayerFunction,
    i: int,
) -> Option<int>
    decreases layers.len() - i,
{
    if i < 0 || i >= layers.len() {
        None
    } else if layers[i].function == a || layers[i].function == b {
        Some(i)
    } else {
        first_layer_from(layers, a, b, i + 1)
    }
}

/// The index of the last layer before `n` whose function is `a` or `b`.
pub open spec fn last_layer_before(
    layers: Seq<ConstructionLayer>,
    a: LayerFunction,
    b: LayerFunction,
    n: int,
) -> Option<int>
    decreases n,
{
    if n <= 0 || n > layers.len() {
        None
    } else if layers[n - 1].function == a || layers[n - 1].function == b {
        Some(n - 1)
    } else {
        last_layer_before(layers, a, b, n - 1)
    }
}

/// The first layer whose function is `a` or `b`, falling back to the first layer.
pub open spec fn first_or_innermost(layers: Seq<ConstructionLayer>, a: LayerFunction, b: LayerFunction) -> Option<int> {
    match first_layer_from(layers, a, b, 0) {
        Some(i) => Some(i),
        None => if layers.len() > 0 { Some(0) } else { None },
    }
}

/// A roof's weather face: the last roofing layer, else the last weather barrier or
/// sheathing, else the outermost layer.
pub open spec fn roof_weather_index(layers: Seq<ConstructionLayer>) -> Option<int> {
    match last_layer_before(layers, LayerFunction::Roofing, LayerFunction::Roofing, layers.len() as int) {
        Some(i) => Some(i),
        None => match last_layer_before(layers, LayerFunction::WeatherBarrier, LayerFunction::Sheathing, layers.len() as int) {
            Some(i) => Some(i),
            None => if layers.len() > 0 { Some(layers.len() - 1) } else { None },
        },
    }
}

/// The layer whose material finishes `face` of a system of this kind.
pub open spec fn finish_layer_index(kind: SystemKind, face: AssemblyFace, layers: Seq<ConstructionLayer>) -> Option<int> {
    match (kind, face) {
        (SystemKind::Roof, AssemblyFace::Finished) => roof_weather_index(layers),
        (SystemKind::Roof, AssemblyFace::Underside) => first_or_innermost(layers, LayerFunction::CeilingFinish, LayerFunction::InteriorFinish),
        (SystemKind::Ceiling, _) => first_or_innermost(layers, LayerFunction::CeilingFinish, LayerFunction::InteriorFinish),
        (SystemKind::Floor, _) => first_or_innermost(layers, LayerFunction::InteriorFinish, LayerFunction::Sheathing),
        (SystemKind::Wall, _) => None,
    }
}

/// Whether a layer with this function faces the weather for a system of this kind.
pub open spec fn weather_facing(kind: SystemKind, f: LayerFunction) -> bool {
    match kind {
        SystemKind::Wall => f == LayerFunction::WeatherBarrier || f == LayerFunction::Cladding
            || f == LayerFunction::Masonry || f == LayerFunction::ContinuousInsulation,
        SystemKind::Roof => f == LayerFunction::Roofing || f == LayerFunction::Underlayment
            || f == LayerFunction::WeatherBarrier || f == LayerFunction::ContinuousInsulation,
        SystemKind::Floor | SystemKind::Ceiling => false,
    }
}

/// The sum of the first `k` layer thicknesses.
pub open spec fn thickness_sum(layers: Seq<ConstructionLayer>, k: int) -> int
    decreases k,
{
    if k <= 0 {
        0
    } else {
        thickness_sum(layers, k - 1) + layers[k - 1].thickness.ticks
    }
}

/// Every running total of layer thicknesses fits in an `i64`.
pub open spec fn thickness_sums_fit(layers: Seq<ConstructionLayer>) -> bool {
    forall|k: int| 0 <= k <= layers.len() ==> i64::MIN <= #[trigger] thickness_sum(layers, k) <= i64::MAX
}

/// The first material in `materials` with id `id`.
pub open spec fn find_material_from(materials: Seq<Material>, id: Seq<char>, i: int) -> Option<int>
    decreases materials.len() - i,
{
    if i < 0 || i >= materials.len() {
        None
    } else if materials[i].id@ == id {
        Some(i)
    } else {
        find_material_from(materials, id, i + 1)
    }
}

/// The milli-R a material contributes across `ticks`, or 0 when the id is unknown.
pub open spec fn material_r(materials: Seq<Material>, id: Seq<char>, ticks: int) -> int {
    match find_material_from(materials, id, 0) {
        Some(i) => r_value_spec(r_per_inch_spec(materials[i]), ticks),
        None => 0,
    }
}

/// The milli-R one layer contributes: its material, plus any framing cavity fill
/// across the same depth.
pub open spec fn layer_r(materials: Seq<Material>, layer: ConstructionLayer) -> int {
    material_r(materials, layer.material@, layer.thickness.ticks as int) + match layer.framing {
        Some(f) => match f.cavity_material {
            Some(c) => material_r(materials, c@, layer.thickness.ticks as int),
            None => 0,
        },
        None => 0,
    }
}

/// The milli-R of the first `k` layers.
pub open spec fn r_sum(materials: Seq<Material>, layers: Seq<ConstructionLayer>, k: int) -> int
    decreases k,
{
    if k <= 0 {
        0
    } else {
        r_sum(materials, layers, k - 1) + layer_r(materials, layers[k - 1])
    }
}

/// Every intermediate product and running total of the R-value sum fits in an `i64`.
pub open spec fn r_sum_fits(materials: Seq<Material>, layers: Seq<ConstructionLayer>) -> bool {
    &&& forall|i: int, k: int| 0 <= i < materials.len() && 0 <= k < layers.len() ==>
        i64::MIN <= r_per_inch_spec(#[trigger] materials[i]) * (#[trigger] layers[k]).thickness.ticks <= i64::MAX
    &&& forall|k: int| 0 <= k <= layers.len() ==> i64::MIN <= #[trigger] r_sum(materials, layers, k) <= i64::MAX
    &&& forall|k: int| 0 <= k < layers.len() ==> i64::MIN <= r_sum(materials, layers, k) + material_r(materials, (#[trigger] layers[k]).material@, layers[k].thickness.ticks as int) <= i64::MAX
}

pub proof fn lemma_first_layer_from_range(layers: Seq<ConstructionLayer>, a: LayerFunction, b: LayerFunction, i: int)
    ensures
        first_layer_from(layers, a, b, i) matches Some(j) ==> i <= j < layers.len() && (layers[j].function == a || layers[j].function == b),
    decreases layers.len() - i,
{
    if i >= 0 && i < layers.len() && !(layers[i].function == a || layers[i].function == b) {
        lemma_first_layer_from_range(layers, a, b, i + 1);
    }
}

pub proof fn lemma_last_layer_before_range(layers: Seq<ConstructionLayer>, a: LayerFunction, b: LayerFunction, n: int)
    ensures
        last_layer_before(layers, a, b, n) matches Some(j) ==> 0 <= j < n && n <= layers.len() && (layers[j].function == a || layers[j].function == b),
    decreases n,
{
    if n > 0 && n <= layers.len() && !(layers[n - 1].function == a || layers[n - 1].function == b) {
        lemma_last_layer_before_range(layers, a, b, n - 1);
    }
}

pub proof fn lemma_find_material_range(materials: Seq<Material>, id: Seq<char>, i: int)
    ensures
        find_material_from(materials, id, i) matches Some(j) ==> i <= j < materials.len() && materials[j].id@ == id,
    decreases materials.len() - i,
{
    if i >= 0 && i < materials.len() && materials[i].id@ != id {
        lemma_find_material_range(materials, id, i + 1);
    }
}

/// The first material with id `id` is at `mi`.
proof fn lemma_find_material_first(materials: Seq<Material>, id: Seq<char>, mi: int, i: int)
    requires
        0 <= i <= mi < materials.len(),
        materials[mi].id@ == id,
        forall|j: int| 0 <= j < mi ==> (#[trigger] materials[j]).id@ != id,
    ensures
        find_material_from(materials, id, i) == Some(mi),
    decreases mi - i,
{
    if i < mi {
        lemma_find_material_first(materials, id, mi, i + 1);
    }
}

/// Replacing layer `k` changes every running R total past it by the change
/// in that layer's own R.
proof fn lemma_r_sum_replace(materials: Seq<Material>, layers: Seq<ConstructionLayer>, k: int, layer: ConstructionLayer, m: int)
    requires
        0 <= k < layers.len(),
        0 <= m <= layers.len(),
    ensures
        r_sum(materials, layers, m) == r_sum(materials, layers.update(k, layer), m) + if m > k {
            layer_r(materials, layers[k]) - layer_r(materials, layer)
        } else {
            0
        },
    decreases m,
{
    if m > 0 {
        lemma_r_sum_replace(materials, layers, k, layer, m - 1);
    }
}

/// A framing layer's cavity fill adds its material's R per inch across the
/// layer's whole thickness: the system's R-value with the cavity filled by
/// the first material of that id exceeds the R-value of the same layers with
/// the cavity left empty by exactly `r_per_inch * thickness_ticks / 16`.
pub proof fn lemma_cavity_adds_r(
    materials: Seq<Material>,
    layers: Seq<ConstructionLayer>,
    k: int,
    empty: ConstructionLayer,
    mi: int,
)
    requires
        0 <= k < layers.len(),
        0 <= mi < materials.len(),
        forall|j: int| 0 <= j < mi ==> (#[trigger] materials[j]).id@ != materials[mi].id@,
        layers[k].framing matches Some(f) && f.cavity_material matches Some(c) && c@ == materials[mi].id@,
        empty.material == layers[k].material,
        empty.thickness == layers[k].thickness,
        empty.framing matches Some(f) ==> f.cavity_material is None,
    ensures
        r_sum(materials, layers, layers.len() as int) == r_sum(materials, layers.update(k, empty), layers.len() as int)
            + r_value_spec(r_per_inch_spec(materials[mi]), layers[k].thickness.ticks as int),
{
    lemma_find_material_first(materials, materials[mi].id@, mi, 0);
    lemma_r_sum_replace(materials, layers, k, empty, layers.len() as int);
}

/// Running R totals depend only on the layers counted so far.
proof fn lemma_r_sum_prefix(materials: Seq<Material>, a: Seq<ConstructionLayer>, b: Seq<ConstructionLayer>, k: int)
    requires
        0 <= k <= a.len(),
    ensures
        r_sum(materials, a + b, k) == r_sum(materials, a, k),
    decreases k,
{
    if k > 0 {
        lemma_r_sum_prefix(materials, a, b, k - 1);
        assert((a + b)[k - 1] == a[k - 1]);
    }
}

proof fn lemma_r_sum_concat_upto(materials: Seq<Material>, a: Seq<ConstructionLayer>, b: Seq<ConstructionLayer>, m: int)
    requires
        0 <= m <= b.len(),
    ensures
        r_sum(materials, a + b, a.len() + m) == r_sum(materials, a, a.len() as int) + r_sum(materials, b, m),
    decreases m,
{
    if m == 0 {
        lemma_r_sum_prefix(materials, a, b, a.len() as int);
    } else {
        lemma_r_sum_concat_upto(materials, a, b, m - 1);
        assert((a + b)[a.len() + m - 1] == b[m - 1]);
    }
}

/// The R-value of layers stacked one assembly on another is the sum of the
/// two assemblies' R-values.
pub proof fn lemma_r_sum_stacked(materials: Seq<Material>, a: Seq<ConstructionLayer>, b: Seq<ConstructionLayer>)
    ensures
        r_sum(materials, a + b, (a + b).len() as int) == r_sum(materials, a, a.len() as int) + r_sum(materials, b, b.len() as int),
{
    lemma_r_sum_concat_upto(materials, a, b, b.len() as int);
}

/// A layer without cavity fill contributes its material's R per inch across
/// its thickness, `r_per_inch * thickness_ticks / 16`, taking the first
/// material of its id; a layer of an unknown material contributes nothing.
pub proof fn lemma_single_layer_r(materials: Seq<Material>, layer: ConstructionLayer, mi: int)
    requires
        layer.framing matches Some(f) ==> f.cavity_material is None,
    ensures
        0 <= mi < materials.len() && materials[mi].id@ == layer.material@ && (forall|j: int|
            0 <= j < mi ==> (#[trigger] materials[j]).id@ != layer.material@) ==> r_sum(materials, seq![layer], 1)
            == r_value_spec(r_per_inch_spec(materials[mi]), layer.thickness.ticks as int),
        (forall|j: int| 0 <= j < materials.len() ==> (#[trigger] materials[j]).id@ != layer.material@) ==> r_sum(
            materials,
            seq![layer],
            1,
        ) == 0,
{
    let one = seq![layer];
    assert(one[0] == layer);
    assert(r_sum(materials, one, 1) == r_sum(materials, one, 0) + layer_r(materials, layer));
    if 0 <= mi < materials.len() && materials[mi].id@ == layer.material@ && (forall|j: int|
        0 <= j < mi ==> (#[trigger] materials[j]).id@ != layer.material@) {
        lemma_find_material_first(materials, layer.material@, mi, 0);
    }
    if forall|j: int| 0 <= j < materials.len() ==> (#[trigger] materials[j]).id@ != layer.material@ {
        lemma_find_material_range(materials, layer.material@, 0);
    }
}

/// Finds the first material with the given id.
pub fn find_material<'a>(materials: &'a [Material], id: &ElementId) -> (r: Option<&'a Material>)
    ensures
        match find_material_from(materials@, id@, 0) {
            Some(i) => r == Some(&materials@[i]),
            None => r is None,
        },
{
    let mut i: usize = 0;
    while i < materials.len()
        invariant
            i <= materials.len(),
            find_material_from(materials@, id@, 0) == find_material_from(materials@, id@, i as int),
        decreases materials.len() - i,
    {
        if materials[i].id == *id {
            return Some(&materials[i]);
        }
        i = i + 1;
    }
    None
}

/// Validation of one construction system against the known material ids.
pub open spec fn layer_ok(layer: ConstructionLayer, materials: Seq<Seq<char>>) -> bool {
    &&& layer.thickness.ticks > 0
    &&& (layer.function == LayerFunction::Framing) == (layer.framing is Some)
    &&& materials.contains(layer.material@)
    &&& match layer.framing {
        Some(f) => f.spacing.ticks > 0 && match f.cavity_material {
            Some(c) => materials.contains(c@),
            None => true,
        },
        None => true,
    }
}

/// The number of layers among the first `k` that carry a framing spec.
pub open spec fn framing_count(layers: Seq<ConstructionLayer>, k: int) -> int
    decreases k,
{
    if k <= 0 {
        0
    } else {
        framing_count(layers, k - 1) + if layers[k - 1].framing is Some { 1int } else { 0int }
    }
}

/// Whether a system is well formed given the known material ids (its id aside).
pub open spec fn system_layers_valid(s: ConstructionSystem, materials: Seq<Seq<char>>) -> bool {
    &&& s.layers@.len() > 0
    &&& forall|i: int| 0 <= i < s.layers@.len() ==> layer_ok(#[trigger] s.layers@[i], materials)
    &&& framing_count(s.layers@, s.layers@.len() as int) == 1
}

impl ConstructionSystem {
    /// The first framing layer, if any.
    pub fn framing_layer(&self) -> (r: Option<&ConstructionLayer>)
        ensures
            match first_layer_from(self.layers@, LayerFunction::Framing, LayerFunction::Framing, 0) {
                Some(i) => r matches Some(l) && *l == self.layers@[i],
                None => r is None,
            },
    {
        proof {
            lemma_first_layer_from_range(self.layers@, LayerFunction::Framing, LayerFunction::Framing, 0);
        }
        let index = self.first_layer_with(LayerFunction::Framing, LayerFunction::Framing);
        match index {
            Some(i) => {
                assert(first_layer_from(self.layers@, LayerFunction::Framing, LayerFunction::Framing, 0) == Some(i as int));
                assert(i < self.layers@.len());
                let l = &self.layers[i];
                assert(*l == self.layers@[i as int]);
                Some(l)
            },
            None => None,
        }
    }

    fn first_layer_with(&self, a: LayerFunction, b: LayerFunction) -> (r: Option<usize>)
        ensures
            r matches Some(j) ==> first_layer_from(self.layers@, a, b, 0) == Some(j as int),
            r is None ==> first_layer_from(self.layers@, a, b, 0) is None,
    {
        let mut i: usize = 0;
        while i < self.layers.len()
            invariant
                i <= self.layers.len(),
                first_layer_from(self.layers@, a, b, 0) == first_layer_from(self.layers@, a, b, i as int),
            decreases self.layers.len() - i,
        {
            let f = self.layers[i].function;
            if f == a || f == b {
                return Some(i);
            }
            i = i + 1;
        }
        None
    }

    fn last_layer_with(&self, a: LayerFunction, b: LayerFunction) -> (r: Option<usize>)
        ensures
            r matches Some(j) ==> last_layer_before(self.layers@, a, b, self.layers@.len() as int) == Some(j as int),
            r is None ==> last_layer_before(self.layers@, a, b, self.layers@.len() as int) is None,
    {
        let mut n: usize = self.layers.len();
        while n > 0
            invariant
                n <= self.layers.len(),
                last_layer_before(self.layers@, a, b, self.layers@.len() as int) == last_layer_before(self.layers@, a, b, n as int),
            decreases n,
        {
            let f = self.layers[n - 1].function;
            if f == a || f == b {
                return Some(n - 1);
            }
            n = n - 1;
        }
        None
    }

    /// Total thickness: the sum of every layer's thickness.
    pub fn total_thickness(&self) -> (r: Length)
        requires
            thickness_sums_fit(self.layers@),
        ensures
            r.ticks == thickness_sum(self.layers@, self.layers@.len() as int),
    {
        let mut total = Length::zero();
        let mut i: usize = 0;
        while i < self.layers.len()
            invariant
                i <= self.layers.len(),
                thickness_sums_fit(self.layers@),
                total.ticks == thickness_sum(self.layers@, i as int),
            decreases self.layers.len() - i,
        {
            assert(thickness_sum(self.layers@, i + 1) == thickness_sum(self.layers@, i as int) + self.layers@[i as int].thickness.ticks);
            assert(i64::MIN <= thickness_sum(self.layers@, i + 1) <= i64::MAX);
            total = total.plus(self.layers[i].thickness);
            i = i + 1;
        }
        total
    }

    /// `Exterior` if any layer faces the weather for this kind of system, else `Interior`.
    pub fn exposure(&self) -> (r: WallExposure)
        ensures
            r == (if exists|i: int| 0 <= i < self.layers@.len() && weather_facing(self.kind, #[trigger] self.layers@[i].function) {
                WallExposure::Exterior
            } else {
                WallExposure::Interior
            }),
    {
        let mut i: usize = 0;
        while i < self.layers.len()
            invariant
                i <= self.layers.len(),
                forall|j: int| 0 <= j < i ==> !weather_facing(self.kind, #[trigger] self.layers@[j].function),
            decreases self.layers.len() - i,
        {
            let f = self.layers[i].function;
            let facing = match self.kind {
                SystemKind::Wall => f == LayerFunction::WeatherBarrier || f == LayerFunction::Cladding
                    || f == LayerFunction::Masonry || f == LayerFunction::ContinuousInsulation,
                SystemKind::Roof => f == LayerFunction::Roofing || f == LayerFunction::Underlayment
                    || f == LayerFunction::WeatherBarrier || f == LayerFunction::ContinuousInsulation,
                SystemKind::Floor | SystemKind::Ceiling => false,
            };
            if facing {
                return WallExposure::Exterior;
            }
            i = i + 1;
        }
        WallExposure::Interior
    }

    /// The material of a finished face on a roof/ceiling/floor; `None` for a wall or an
    /// empty system.
    pub fn surface_finish_material(&self, face: AssemblyFace) -> (r: Option<&ElementId>)
        ensures
            match finish_layer_index(self.kind, face, self.layers@) {
                Some(i) => r == Some(&self.layers@[i].material),
                None => r is None,
            },
    {
        proof {
            lemma_first_layer_from_range(self.layers@, LayerFunction::CeilingFinish, LayerFunction::InteriorFinish, 0);
            lemma_first_layer_from_range(self.layers@, LayerFunction::InteriorFinish, LayerFunction::Sheathing, 0);
            lemma_last_layer_before_range(self.layers@, LayerFunction::Roofing, LayerFunction::Roofing, self.layers@.len() as int);
            lemma_last_layer_before_range(self.layers@, LayerFunction::WeatherBarrier, LayerFunction::Sheathing, self.layers@.len() as int);
        }
        let n = self.layers.len();
        let index = match (self.kind, face) {
            (SystemKind::Roof, AssemblyFace::Finished) => {
                match self.last_layer_with(LayerFunction::Roofing, LayerFunction::Roofing) {
                    Some(i) => Some(i),
                    None => match self.last_layer_with(LayerFunction::WeatherBarrier, LayerFunction::Sheathing) {
                        Some(i) => Some(i),
                        None => if n > 0 { Some(n - 1) } else { None },
                    },
                }
            },
            (SystemKind::Roof, AssemblyFace::Underside) | (SystemKind::Ceiling, _) => {
                match self.first_layer_with(LayerFunction::CeilingFinish, LayerFunction::InteriorFinish) {
                    Some(i) => Some(i),
                    None => if n > 0 { Some(0) } else { None },
                }
            },
            (SystemKind::Floor, _) => {
                match self.first_layer_with(LayerFunction::InteriorFinish, LayerFunction::Sheathing) {
                    Some(i) => Some(i),
                    None => if n > 0 { Some(0) } else { None },
                }
            },
            (SystemKind::Wall, _) => None,
        };
        match index {
            Some(i) => Some(&self.layers[i].material),
            None => None,
        }
    }

    /// Clear-wall R-value in milli-R: each layer's material R across its thickness,
    /// plus any framing cavity material across the framing depth.
    pub fn r_value_milli(&self, materials: &[Material]) -> (r: i64)
        requires
            r_sum_fits(materials@, self.layers@),
        ensures
            r == r_sum(materials@, self.layers@, self.layers@.len() as int),
    {
        let mut total: i64 = 0;
        let mut i: usize = 0;
        while i < self.layers.len()
            invariant
                i <= self.layers.len(),
                r_sum_fits(materials@, self.layers@),
                total == r_sum(materials@, self.layers@, i as int),
            decreases self.layers.len() - i,
        {
            let layer = &self.layers[i];
            let ghost k = i as int;
            assert(r_sum(materials@, self.layers@, k + 1) == r_sum(materials@, self.layers@, k) + layer_r(materials@, self.layers@[k]));
            assert(i64::MIN <= r_sum(materials@, self.layers@, k + 1) <= i64::MAX);
            assert(i64::MIN <= r_sum(materials@, self.layers@, k) + material_r(materials@, layer.material@, layer.thickness.ticks as int) <= i64::MAX);
            match find_material(materials, &layer.material) {
                Some(m) => {
                    proof { lemma_find_material_range(materials@, layer.material@, 0); }
                    let ghost mi = find_material_from(materials@, layer.material@, 0).unwrap();
                    assert(i64::MIN <= r_per_inch_spec(materials@[mi]) * self.layers@[k].thickness.ticks <= i64::MAX);
                    total = total + m.r_value_milli(layer.thickness);
                },
                None => {},
            }
            match &layer.framing {
                Some(f) => match &f.cavity_material {
                    Some(c) => match find_material(materials, c) {
                        Some(m) => {
                            proof { lemma_find_material_range(materials@, c@, 0); }
                            let ghost mi = find_material_from(materials@, c@, 0).unwrap();
                            assert(i64::MIN <= r_per_inch_spec(materials@[mi]) * self.layers@[k].thickness.ticks <= i64::MAX);
                            total = total + m.r_value_milli(layer.thickness);
                        },
                        None => {},
                    },
                    None => {},
                },
                None => {},
            }
            i = i + 1;
        }
        total
    }

    /// Validates the system's id, records it as used, and checks its layers against
    /// the known material ids: at least one layer, positive thicknesses, a framing
    /// spec exactly on framing layers, known materials, positive spacing, and exactly
    /// one framing layer.
    pub fn validate(&self, materials: &Vec<ElementId>, ids: &mut Vec<ElementId>) -> (r: Result<(), ModelError>)
        ensures
            r is Ok <==> (valid_id(self.id@) && !id_views(old(ids)@).contains(self.id@)
                && system_layers_valid(*self, id_views(materials@))),
            r is Ok ==> final(ids)@ == old(ids)@.push(self.id),
            valid_id(self.id@) && !id_views(old(ids)@).contains(self.id@) && self.layers@.len() > 0 && (forall|i: int|
                0 <= i < self.layers@.len() ==> layer_ok(#[trigger] self.layers@[i], id_views(materials@)))
                && framing_count(self.layers@, self.layers@.len() as int) != 1 ==> (r matches Err(
                ModelError::SystemFramingLayerCount { system, found },
            ) && system@ == self.id@ && found == framing_count(self.layers@, self.layers@.len() as int)),
            !valid_id(self.id@) ==> (r matches Err(ModelError::InvalidElementId { id }) && id@ == self.id@),
            valid_id(self.id@) && id_views(old(ids)@).contains(self.id@) ==> (r matches Err(ModelError::DuplicateElementId { id })
                && id@ == self.id@),
    {
        validate_element_id(&self.id)?;
        insert_unique_id(ids, &self.id)?;
        let ghost mats = id_views(materials@);
        if self.layers.len() == 0 {
            return Err(ModelError::SystemHasNoLayers { system: self.id.clone() });
        }
        let mut framing_layers: usize = 0;
        let mut i: usize = 0;
        while i < self.layers.len()
            invariant
                i <= self.layers.len(),
                mats == id_views(materials@),
                valid_id(self.id@),
                !id_views(old(ids)@).contains(self.id@),
                framing_layers == framing_count(self.layers@, i as int),
                framing_layers <= i,
                forall|j: int| 0 <= j < i ==> layer_ok(#[trigger] self.layers@[j], mats),
            decreases self.layers.len() - i,
        {
            let layer = &self.layers[i];
            if layer.thickness.ticks <= 0 {
                return Err(ModelError::InvalidLayerThickness { system: self.id.clone() });
            }
            let is_framing = layer.function == LayerFunction::Framing;
            let has_spec = match &layer.framing { Some(_) => true, None => false };
            if is_framing != has_spec {
                return Err(ModelError::LayerFramingMismatch { system: self.id.clone() });
            }
            if !contains_id(materials, &layer.material) {
                return Err(ModelError::LayerReferencesUnknownMaterial {
                    system: self.id.clone(),
                    material: layer.material.clone(),
                });
            }
            match &layer.framing {
                Some(framing) => {
                    framing_layers = framing_layers + 1;
                    if framing.spacing.ticks <= 0 {
                        return Err(ModelError::InvalidFramingSpacing { system: self.id.clone() });
                    }
                    match &framing.cavity_material {
                        Some(cavity) => {
                            if !contains_id(materials, cavity) {
                                return Err(ModelError::LayerReferencesUnknownMaterial {
                                    system: self.id.clone(),
                                    material: cavity.clone(),
                                });
                            }
                        },
                        None => {},
                    }
                },
                None => {},
            }
            i = i + 1;
        }
        if framing_layers != 1 {
            return Err(ModelError::SystemFramingLayerCount { system: self.id.clone(), found: framing_layers });
        }
        Ok(())
    }
}

} // verus!
