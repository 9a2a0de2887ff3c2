//! Standards packs: code tables, compliance checks, overlays, their validation
//! and their resolution into one effective rule set.

use vstd::prelude::*;

use crate::element::{ElementId, valid_id, validate_element_id};
use crate::error::ModelError;
use crate::material::{PropertyMap, Provenance};
use crate::system::BoardProfile;
use crate::text::{is_blank, is_lower_alnum, seq_lt, str_is_blank, str_less};
use crate::units::{Length, Point2};

verus! {

/// Seismic design categories, in increasing severity.
#[derive(Debug, Clone, Copy, PartialEq, Eq, Hash, Structural)]
pub enum SeismicDesignCategory {
    A,
    B,
    C,
    D0,
    D1,
    D2,
    E,
}

/// The position of a category in its declaration order.
pub open spec fn seismic_rank(s: SeismicDesignCategory) -> int {
    match s {
        SeismicDesignCategory::A => 0,
        SeismicDesignCategory::B => 1,
        SeismicDesignCategory::C => 2,
        SeismicDesignCategory::D0 => 3,
        SeismicDesignCategory::D1 => 4,
        SeismicDesignCategory::D2 => 5,
        SeismicDesignCategory::E => 6,
    }
}

fn seismic_index(s: SeismicDesignCategory) -> (r: i64)
    ensures
        r == seismic_rank(s),
{
    match s {
        SeismicDesignCategory::A => 0,
        SeismicDesignCategory::B => 1,
        SeismicDesignCategory::C => 2,
        SeismicDesignCategory::D0 => 3,
        SeismicDesignCategory::D1 => 4,
        SeismicDesignCategory::D2 => 5,
        SeismicDesignCategory::E => 6,
    }
}

/// The site a project is designed for.
#[derive(Debug, Clone)]
pub struct SiteContext {
    pub jurisdiction: String,
    pub seismic: Option<SeismicDesignCategory>,
    pub wind_speed_mph: Option<u32>,
    pub ground_snow_load_psf: Option<u32>,
    pub frost_depth: Option<Length>,
    pub properties: PropertyMap,
}

impl SiteContext {
    /// An unspecified site.
    pub fn empty() -> (r: SiteContext)
        ensures
            r.jurisdiction@.len() == 0,
            r.seismic is None,
            r.wind_speed_mph is None,
            r.ground_snow_load_psf is None,
            r.frost_depth is None,
            r.properties.is_empty_spec(),
    {
        SiteContext {
            jurisdiction: String::new(),
            seismic: None,
            wind_speed_mph: None,
            ground_snow_load_psf: None,
            frost_depth: None,
            properties: PropertyMap::new(),
        }
    }
}

/// Wall bracing methods.
#[derive(Debug, Clone, Copy, PartialEq, Eq, Hash, Structural)]
pub enum BracingMethod {
    Lib,
    Dwb,
    Wsp,
    Sfb,
    Gb,
    Pcp,
    Hps,
    CsWsp,
}

/// The position of a bracing method in its declaration order.
pub open spec fn bracing_rank(m: BracingMethod) -> int {
    match m {
        BracingMethod::Lib => 0,
        BracingMethod::Dwb => 1,
        BracingMethod::Wsp => 2,
        BracingMethod::Sfb => 3,
        BracingMethod::Gb => 4,
        BracingMethod::Pcp => 5,
        BracingMethod::Hps => 6,
        BracingMethod::CsWsp => 7,
    }
}

impl BracingMethod {
    pub fn label(self) -> (r: &'static str)
        ensures
            r@ == match self {
                BracingMethod::Lib => "LIB"@,
                BracingMethod::Dwb => "DWB"@,
                BracingMethod::Wsp => "WSP"@,
                BracingMethod::Sfb => "SFB"@,
                BracingMethod::Gb => "GB"@,
                BracingMethod::Pcp => "PCP"@,
                BracingMethod::Hps => "HPS"@,
                BracingMethod::CsWsp => "CS-WSP"@,
            },
    {
        match self {
            BracingMethod::Lib => "LIB",
            BracingMethod::Dwb => "DWB",
            BracingMethod::Wsp => "WSP",
            BracingMethod::Sfb => "SFB",
            BracingMethod::Gb => "GB",
            BracingMethod::Pcp => "PCP",
            BracingMethod::Hps => "HPS",
            BracingMethod::CsWsp => "CS-WSP",
        }
    }

    fn index(self) -> (r: i64)
        ensures
            r == bracing_rank(self),
    {
        match self {
            BracingMethod::Lib => 0,
            BracingMethod::Dwb => 1,
            BracingMethod::Wsp => 2,
            BracingMethod::Sfb => 3,
            BracingMethod::Gb => 4,
            BracingMethod::Pcp => 5,
            BracingMethod::Hps => 6,
            BracingMethod::CsWsp => 7,
        }
    }
}

/// An authored braced wall line.
#[derive(Debug, Clone)]
pub struct BracedWallLine {
    pub id: ElementId,
    pub name: String,
    pub level: ElementId,
    pub start: Point2,
    pub end: Point2,
}

/// An authored bracing panel along a wall.
#[derive(Debug)]
pub struct BracedPanel {
    pub id: ElementId,
    pub offset: Length,
    pub length: Length,
    pub method: BracingMethod,
}

impl Clone for BracedPanel {
    fn clone(&self) -> (r: Self)
        ensures
            r == *self,
    {
        BracedPanel { id: self.id.clone(), offset: self.offset, length: self.length, method: self.method }
    }
}

/// Default framing choices of a standards pack.
#[derive(Debug, Clone, Copy, PartialEq, Eq, Structural)]
pub struct FramingDefaults {
    pub default_wall_height: Length,
    pub default_stud_spacing: Length,
    pub double_top_plate: bool,
    pub default_header_depth: Length,
    pub stud_profile: BoardProfile,
    pub plate_profile: BoardProfile,
    pub header_profile: BoardProfile,
}

/// The IRC 2021 prescriptive starter defaults: 8' walls, 16" o.c. 2x4 studs and
/// plates, a double top plate, and 9" 2x10 headers.
pub open spec fn starter_defaults() -> FramingDefaults {
    FramingDefaults {
        default_wall_height: Length { ticks: 1536 },
        default_stud_spacing: Length { ticks: 256 },
        double_top_plate: true,
        default_header_depth: Length { ticks: 144 },
        stud_profile: BoardProfile::TwoByFour,
        plate_profile: BoardProfile::TwoByFour,
        header_profile: BoardProfile::TwoByTen,
    }
}

impl FramingDefaults {
    /// The IRC 2021 prescriptive starter defaults.
    pub fn irc_2021_starter() -> (r: FramingDefaults)
        ensures
            r == starter_defaults(),
    {
        FramingDefaults {
            default_wall_height: Length::from_whole_inches(96),
            default_stud_spacing: Length::from_whole_inches(16),
            double_top_plate: true,
            default_header_depth: Length::from_whole_inches(9),
            stud_profile: BoardProfile::TwoByFour,
            plate_profile: BoardProfile::TwoByFour,
            header_profile: BoardProfile::TwoByTen,
        }
    }
}

/// The position of a board profile in its declaration order.
pub open spec fn profile_rank(p: BoardProfile) -> int {
    match p {
        BoardProfile::TwoByFour => 0,
        BoardProfile::TwoBySix => 1,
        BoardProfile::TwoByEight => 2,
        BoardProfile::TwoByTen => 3,
        BoardProfile::TwoByTwelve => 4,
    }
}

fn profile_index(p: BoardProfile) -> (r: i64)
    ensures
        r == profile_rank(p),
{
    match p {
        BoardProfile::TwoByFour => 0,
        BoardProfile::TwoBySix => 1,
        BoardProfile::TwoByEight => 2,
        BoardProfile::TwoByTen => 3,
        BoardProfile::TwoByTwelve => 4,
    }
}

#[derive(Debug, PartialEq, Eq, Clone)]
pub struct StudTable {
    pub rule: String,
    pub citation: String,
    pub rows: Vec<StudRow>,
}

#[derive(Debug, Clone, Copy, PartialEq, Eq, Structural)]
pub struct StudRow {
    pub profile: BoardProfile,
    pub spacing: Length,
    pub max_height_bearing: Length,
    pub max_height_nonbearing: Length,
}

#[derive(Debug, PartialEq, Eq, Clone)]
pub struct HeaderSpanTable {
    pub rule: String,
    pub citation: String,
    pub rows: Vec<HeaderRow>,
}

#[derive(Debug, Clone, Copy, PartialEq, Eq, Structural)]
pub struct HeaderRow {
    pub profile: BoardProfile,
    pub plies: u8,
    pub max_ground_snow_psf: u32,
    pub max_building_width: Length,
    pub max_span: Length,
    pub jack_studs: u8,
}

/// Framing connections that a fastening schedule covers.
#[derive(Debug, Clone, Copy, PartialEq, Eq, Hash, Structural)]
pub enum ConnectionKind {
    StudToPlateEnd,
    StudToPlateToe,
    TopPlateLap,
    DoubleTopPlate,
    SolePlateToJoist,
    HeaderToKingStud,
    SheathingEdge,
    SheathingField,
}

/// The position of a connection kind in its declaration order.
pub open spec fn connection_rank(c: ConnectionKind) -> int {
    match c {
        ConnectionKind::StudToPlateEnd => 0,
        ConnectionKind::StudToPlateToe => 1,
        ConnectionKind::TopPlateLap => 2,
        ConnectionKind::DoubleTopPlate => 3,
        ConnectionKind::SolePlateToJoist => 4,
        ConnectionKind::HeaderToKingStud => 5,
        ConnectionKind::SheathingEdge => 6,
        ConnectionKind::SheathingField => 7,
    }
}

fn connection_index(c: ConnectionKind) -> (r: i64)
    ensures
        r == connection_rank(c),
{
    match c {
        ConnectionKind::StudToPlateEnd => 0,
        ConnectionKind::StudToPlateToe => 1,
        ConnectionKind::TopPlateLap => 2,
        ConnectionKind::DoubleTopPlate => 3,
        ConnectionKind::SolePlateToJoist => 4,
        ConnectionKind::HeaderToKingStud => 5,
        ConnectionKind::SheathingEdge => 6,
        ConnectionKind::SheathingField => 7,
    }
}

#[derive(Debug, Clone, Copy, PartialEq, Eq, Structural)]
pub enum FastenerSchedule {
    Count(u32),
    Spacing { on_center: Length },
    EdgeField { edge: Length, field: Length },
}

#[derive(Debug, PartialEq, Eq, Clone)]
pub struct FasteningSchedule {
    pub rule: String,
    pub citation: String,
    pub rows: Vec<FasteningRow>,
}

#[derive(Debug, PartialEq, Eq)]
pub struct FasteningRow {
    pub connection: ConnectionKind,
    pub fastener: String,
    pub schedule: FastenerSchedule,
}

impl Clone for FasteningRow {
    fn clone(&self) -> (r: Self)
        ensures
            r == *self,
    {
        FasteningRow { connection: self.connection, fastener: self.fastener.clone(), schedule: self.schedule }
    }
}

#[derive(Debug, PartialEq, Eq, Clone)]
pub struct BracingTable {
    pub rule: String,
    pub citation: String,
    pub rows: Vec<BracingRow>,
}

#[derive(Debug, Clone, Copy, PartialEq, Eq, Structural)]
pub struct BracingRow {
    pub method: BracingMethod,
    pub max_seismic: Option<SeismicDesignCategory>,
    pub max_wind_speed_mph: Option<u32>,
    pub line_length: Length,
    pub required_length: Length,
}

#[derive(Debug, Clone)]
pub struct StandardsTables {
    pub defaults: FramingDefaults,
    pub studs: Vec<StudTable>,
    pub headers: Vec<HeaderSpanTable>,
    pub fastening: Vec<FasteningSchedule>,
    pub bracing: Vec<BracingTable>,
}

#[derive(Debug, Clone, Copy, PartialEq, Eq, Hash, Structural)]
pub enum CheckSeverity {
    Required,
    Advisory,
}

/// When a check applies to a site.
#[derive(Debug, PartialEq, Eq)]
pub enum Applicability {
    Always,
    All(Vec<Applicability>),
    Any(Vec<Applicability>),
    Not(Box<Applicability>),
    SeismicAtLeast(SeismicDesignCategory),
    SeismicAtMost(SeismicDesignCategory),
    WindSpeedAtLeast(u32),
    SnowLoadAtLeast(u32),
    SiteFlag { key: String },
}

/// Facts a compliance check can compare.
#[derive(Debug, Clone, Copy, PartialEq, Eq, Hash, Structural)]
pub enum Fact {
    WallLength,
    WallHeight,
    WallIsExterior,
    WallStudSpacing,
    WallSystemRValueMilli,
    WallStudMaxHeight,
    OpeningRoughWidth,
    OpeningRoughHeight,
    OpeningHeaderDepth,
    OpeningJackStuds,
    OpeningHeaderMaxSpan,
    RoomAreaSquareInches,
    RoomCeilingHeight,
    BracedLineLength,
    BracedLineRequiredLength,
    BracedLineProvidedLength,
}

#[derive(Debug, Clone, Copy, PartialEq, Eq, Structural)]
pub enum FactType {
    Length,
    Int,
    Flag,
}

/// The kind of element a fact is measured on.
#[derive(Debug, Clone, Copy, PartialEq, Eq, Structural)]
pub enum FactScope {
    Wall,
    Opening,
    Room,
    BracedWallLine,
}

impl FactScope {
    pub fn label(self) -> (r: &'static str)
        ensures
            r@ == match self {
                FactScope::Wall => "Walls"@,
                FactScope::Opening => "Openings"@,
                FactScope::Room => "Rooms"@,
                FactScope::BracedWallLine => "BracedWallLines"@,
            },
    {
        match self {
            FactScope::Wall => "Walls",
            FactScope::Opening => "Openings",
            FactScope::Room => "Rooms",
            FactScope::BracedWallLine => "BracedWallLines",
        }
    }
}

impl FactType {
    /// The variant's name.
    pub fn name(self) -> (r: &'static str)
        ensures
            r@ == match self {
                FactType::Length => "Length"@,
                FactType::Int => "Int"@,
                FactType::Flag => "Flag"@,
            },
    {
        match self {
            FactType::Length => "Length",
            FactType::Int => "Int",
            FactType::Flag => "Flag",
        }
    }
}

/// The value type of each fact.
pub open spec fn fact_type(f: Fact) -> FactType {
    match f {
        Fact::WallSystemRValueMilli | Fact::OpeningJackStuds | Fact::RoomAreaSquareInches => FactType::Int,
        Fact::WallIsExterior => FactType::Flag,
        _ => FactType::Length,
    }
}

/// The element kind each fact is measured on.
pub open spec fn fact_scope(f: Fact) -> FactScope {
    match f {
        Fact::WallLength | Fact::WallHeight | Fact::WallIsExterior | Fact::WallStudSpacing
        | Fact::WallSystemRValueMilli | Fact::WallStudMaxHeight => FactScope::Wall,
        Fact::OpeningRoughWidth | Fact::OpeningRoughHeight | Fact::OpeningHeaderDepth
        | Fact::OpeningJackStuds | Fact::OpeningHeaderMaxSpan => FactScope::Opening,
        Fact::RoomAreaSquareInches | Fact::RoomCeilingHeight => FactScope::Room,
        Fact::BracedLineLength | Fact::BracedLineRequiredLength | Fact::BracedLineProvidedLength => FactScope::BracedWallLine,
    }
}

impl Fact {
    pub fn value_type(self) -> (r: FactType)
        ensures
            r == fact_type(self),
    {
        match self {
            Fact::WallSystemRValueMilli | Fact::OpeningJackStuds | Fact::RoomAreaSquareInches => FactType::Int,
            Fact::WallIsExterior => FactType::Flag,
            _ => FactType::Length,
        }
    }

    pub fn scope(self) -> (r: FactScope)
        ensures
            r == fact_scope(self),
    {
        match self {
            Fact::WallLength | Fact::WallHeight | Fact::WallIsExterior | Fact::WallStudSpacing
            | Fact::WallSystemRValueMilli | Fact::WallStudMaxHeight => FactScope::Wall,
            Fact::OpeningRoughWidth | Fact::OpeningRoughHeight | Fact::OpeningHeaderDepth
            | Fact::OpeningJackStuds | Fact::OpeningHeaderMaxSpan => FactScope::Opening,
            Fact::RoomAreaSquareInches | Fact::RoomCeilingHeight => FactScope::Room,
            Fact::BracedLineLength | Fact::BracedLineRequiredLength | Fact::BracedLineProvidedLength => FactScope::BracedWallLine,
        }
    }

    /// The variant's name.
    pub fn name(self) -> (r: &'static str)
        ensures
            r@.len() > 0,
    {
        let r = match self {
            Fact::WallLength => "WallLength",
            Fact::WallHeight => "WallHeight",
            Fact::WallIsExterior => "WallIsExterior",
            Fact::WallStudSpacing => "WallStudSpacing",
            Fact::WallSystemRValueMilli => "WallSystemRValueMilli",
            Fact::WallStudMaxHeight => "WallStudMaxHeight",
            Fact::OpeningRoughWidth => "OpeningRoughWidth",
            Fact::OpeningRoughHeight => "OpeningRoughHeight",
            Fact::OpeningHeaderDepth => "OpeningHeaderDepth",
            Fact::OpeningJackStuds => "OpeningJackStuds",
            Fact::OpeningHeaderMaxSpan => "OpeningHeaderMaxSpan",
            Fact::RoomAreaSquareInches => "RoomAreaSquareInches",
            Fact::RoomCeilingHeight => "RoomCeilingHeight",
            Fact::BracedLineLength => "BracedLineLength",
            Fact::BracedLineRequiredLength => "BracedLineRequiredLength",
            Fact::BracedLineProvidedLength => "BracedLineProvidedLength",
        };
        proof {
            reveal_strlit("WallLength");
            reveal_strlit("WallHeight");
            reveal_strlit("WallIsExterior");
            reveal_strlit("WallStudSpacing");
            reveal_strlit("WallSystemRValueMilli");
            reveal_strlit("WallStudMaxHeight");
            reveal_strlit("OpeningRoughWidth");
            reveal_strlit("OpeningRoughHeight");
            reveal_strlit("OpeningHeaderDepth");
            reveal_strlit("OpeningJackStuds");
            reveal_strlit("OpeningHeaderMaxSpan");
            reveal_strlit("RoomAreaSquareInches");
            reveal_strlit("RoomCeilingHeight");
            reveal_strlit("BracedLineLength");
            reveal_strlit("BracedLineRequiredLength");
            reveal_strlit("BracedLineProvidedLength");
        }
        r
    }
}

/// Comparison operators of a predicate.
#[derive(Debug, Clone, Copy, PartialEq, Eq, Hash, Structural)]
pub enum CompareOp {
    Lt,
    Le,
    Eq,
    Ge,
    Gt,
    Ne,
}

impl CompareOp {
    pub fn label(self) -> (r: &'static str)
        ensures
            r@ == match self {
                CompareOp::Lt => "<"@,
                CompareOp::Le => "<="@,
                CompareOp::Eq => "=="@,
                CompareOp::Ge => ">="@,
                CompareOp::Gt => ">"@,
                CompareOp::Ne => "!="@,
            },
    {
        match self {
            CompareOp::Lt => "<",
            CompareOp::Le => "<=",
            CompareOp::Eq => "==",
            CompareOp::Ge => ">=",
            CompareOp::Gt => ">",
            CompareOp::Ne => "!=",
        }
    }
}

/// The right-hand side of a comparison.
#[derive(Debug, Clone, Copy, PartialEq, Eq, Structural)]
pub enum FactOperand {
    LengthLiteral(Length),
    IntLiteral(i64),
    FlagLiteral(bool),
    Fact(Fact),
}

/// The value type of an operand.
pub open spec fn operand_type(o: FactOperand) -> FactType {
    match o {
        FactOperand::LengthLiteral(_) => FactType::Length,
        FactOperand::IntLiteral(_) => FactType::Int,
        FactOperand::FlagLiteral(_) => FactType::Flag,
        FactOperand::Fact(f) => fact_type(f),
    }
}

impl FactOperand {
    pub fn value_type(&self) -> (r: FactType)
        ensures
            r == operand_type(*self),
    {
        match self {
            FactOperand::LengthLiteral(_) => FactType::Length,
            FactOperand::IntLiteral(_) => FactType::Int,
            FactOperand::FlagLiteral(_) => FactType::Flag,
            FactOperand::Fact(fact) => fact.value_type(),
        }
    }

    pub fn fact(&self) -> (r: Option<Fact>)
        ensures
            r == match *self {
                FactOperand::Fact(f) => Some(f),
                _ => None::<Fact>,
            },
    {
        match self {
            FactOperand::Fact(fact) => Some(*fact),
            _ => None,
        }
    }
}

/// A boolean requirement over facts.
#[derive(Debug, PartialEq, Eq)]
pub enum Predicate {
    All(Vec<Predicate>),
    Any(Vec<Predicate>),
    Not(Box<Predicate>),
    Compare { fact: Fact, op: CompareOp, value: FactOperand },
}

/// Which elements a check inspects.
#[derive(Debug, Clone, PartialEq, Eq)]
pub enum CheckScope {
    Walls { exterior_only: Option<bool>, tags: Vec<String> },
    Openings { tags: Vec<String> },
    Rooms { tags: Vec<String> },
    BracedWallLines,
}

/// The element kind a check scope ranges over.
pub open spec fn check_scope_kind(s: CheckScope) -> FactScope {
    match s {
        CheckScope::Walls { .. } => FactScope::Wall,
        CheckScope::Openings { .. } => FactScope::Opening,
        CheckScope::Rooms { .. } => FactScope::Room,
        CheckScope::BracedWallLines => FactScope::BracedWallLine,
    }
}

impl CheckScope {
    pub fn fact_scope(&self) -> (r: FactScope)
        ensures
            r == check_scope_kind(*self),
    {
        match self {
            CheckScope::Walls { .. } => FactScope::Wall,
            CheckScope::Openings { .. } => FactScope::Opening,
            CheckScope::Rooms { .. } => FactScope::Room,
            CheckScope::BracedWallLines => FactScope::BracedWallLine,
        }
    }
}

impl Clone for Applicability {
    fn clone(&self) -> (r: Self)
        decreases self,
    {
        match self {
            Applicability::Always => Applicability::Always,
            Applicability::All(items) => {
                let mut out: Vec<Applicability> = Vec::new();
                let mut i: usize = 0;
                while i < items.len()
                    invariant
                        i <= items@.len(),
                        *self == Applicability::All(*items),
                    decreases items@.len() - i,
                {
                    proof {
                        assert(decreases_to!(*self => self->All_0));
                        assert(self->All_0 == *items);
                        assert(decreases_to!(*items => items@));
                        assert(decreases_to!(items@ => items@[i as int]));
                    }
                    out.push(items[i].clone());
                    i = i + 1;
                }
                Applicability::All(out)
            },
            Applicability::Any(items) => {
                let mut out: Vec<Applicability> = Vec::new();
                let mut i: usize = 0;
                while i < items.len()
                    invariant
                        i <= items@.len(),
                        *self == Applicability::Any(*items),
                    decreases items@.len() - i,
                {
                    proof {
                        assert(decreases_to!(*self => self->Any_0));
                        assert(self->Any_0 == *items);
                        assert(decreases_to!(*items => items@));
                        assert(decreases_to!(items@ => items@[i as int]));
                    }
                    out.push(items[i].clone());
                    i = i + 1;
                }
                Applicability::Any(out)
            },
            Applicability::Not(inner) => Applicability::Not(Box::new((**inner).clone())),
            Applicability::SeismicAtLeast(c) => Applicability::SeismicAtLeast(*c),
            Applicability::SeismicAtMost(c) => Applicability::SeismicAtMost(*c),
            Applicability::WindSpeedAtLeast(v) => Applicability::WindSpeedAtLeast(*v),
            Applicability::SnowLoadAtLeast(v) => Applicability::SnowLoadAtLeast(*v),
            Applicability::SiteFlag { key } => Applicability::SiteFlag { key: key.clone() },
        }
    }
}

impl Clone for Predicate {
    fn clone(&self) -> (r: Self)
        decreases self,
    {
        match self {
            Predicate::All(items) => {
                let mut out: Vec<Predicate> = Vec::new();
                let mut i: usize = 0;
                while i < items.len()
                    invariant
                        i <= items@.len(),
                        *self == Predicate::All(*items),
                    decreases items@.len() - i,
                {
                    proof {
                        assert(decreases_to!(*self => self->All_0));
                        assert(self->All_0 == *items);
                        assert(decreases_to!(*items => items@));
                        assert(decreases_to!(items@ => items@[i as int]));
                    }
                    out.push(items[i].clone());
                    i = i + 1;
                }
                Predicate::All(out)
            },
            Predicate::Any(items) => {
                let mut out: Vec<Predicate> = Vec::new();
                let mut i: usize = 0;
                while i < items.len()
                    invariant
                        i <= items@.len(),
                        *self == Predicate::Any(*items),
                    decreases items@.len() - i,
                {
                    proof {
                        assert(decreases_to!(*self => self->Any_0));
                        assert(self->Any_0 == *items);
                        assert(decreases_to!(*items => items@));
                        assert(decreases_to!(items@ => items@[i as int]));
                    }
                    out.push(items[i].clone());
                    i = i + 1;
                }
                Predicate::Any(out)
            },
            Predicate::Not(inner) => Predicate::Not(Box::new((**inner).clone())),
            Predicate::Compare { fact, op, value } => Predicate::Compare { fact: *fact, op: *op, value: *value },
        }
    }
}

/// A compliance check owned by a standards pack.
#[derive(Debug, PartialEq, Eq, Clone)]
pub struct ComplianceCheck {
    pub rule: String,
    pub citation: String,
    pub title: String,
    pub severity: CheckSeverity,
    pub applies: Applicability,
    pub scope: CheckScope,
    pub requirement: Predicate,
}

/// A later pack's adjustment to an earlier rule.
#[derive(Debug, Clone)]
pub enum RuleOverlay {
    Waive { target: String, reason: String },
    Severity { target: String, severity: CheckSeverity },
}

/// A named, layered set of code tables, checks and overlays.
#[derive(Debug, Clone)]
pub struct StandardsPack {
    pub id: ElementId,
    pub name: String,
    pub edition: String,
    pub source: Option<Provenance>,
    pub tables: StandardsTables,
    pub checks: Vec<ComplianceCheck>,
    pub overlays: Vec<RuleOverlay>,
    pub tags: Vec<String>,
    pub properties: PropertyMap,
}

// ---------------------------------------------------------------------------
// Validation
// ---------------------------------------------------------------------------

/// The rule-id grammar: `[a-z0-9][a-z0-9.-]*`.
pub open spec fn valid_rule_id(s: Seq<char>) -> bool {
    &&& s.len() > 0
    &&& is_lower_alnum(s[0])
    &&& forall|i: int| 1 <= i < s.len() ==> (is_lower_alnum(#[trigger] s[i]) || s[i] == '-' || s[i] == '.')
}

/// Whether `rule` follows the rule-id grammar.
pub fn is_valid_rule_id(rule: &str) -> (r: bool)
    ensures
        r == valid_rule_id(rule@),
{
    let n = rule.unicode_len();
    if n == 0 {
        return false;
    }
    let c0 = rule.get_char(0);
    if !(('a' <= c0 && c0 <= 'z') || ('0' <= c0 && c0 <= '9')) {
        return false;
    }
    let mut i: usize = 1;
    while i < n
        invariant
            n == rule@.len(),
            1 <= i <= n,
            forall|j: int| 1 <= j < i ==> (is_lower_alnum(#[trigger] rule@[j]) || rule@[j] == '-' || rule@[j] == '.'),
        decreases n - i,
    {
        let c = rule.get_char(i);
        if !(('a' <= c && c <= 'z') || ('0' <= c && c <= '9') || c == '-' || c == '.') {
            return false;
        }
        i = i + 1;
    }
    true
}

/// The views of a sequence of strings.
pub open spec fn string_views(v: Seq<String>) -> Seq<Seq<char>> {
    v.map_values(|s: String| s@)
}

fn contains_string(rules: &Vec<String>, rule: &str) -> (r: bool)
    ensures
        r == string_views(rules@).contains(rule@),
{
    let mut i: usize = 0;
    while i < rules.len()
        invariant
            i <= rules.len(),
            forall|j: int| 0 <= j < i ==> rules@[j]@ != rule@,
        decreases rules.len() - i,
    {
        if crate::text::str_eq(rules[i].as_str(), rule) {
            assert(string_views(rules@)[i as int] == rule@);
            return true;
        }
        i = i + 1;
    }
    assert(!string_views(rules@).contains(rule@)) by {
        if string_views(rules@).contains(rule@) {
            let k = choose|k: int| 0 <= k < string_views(rules@).len() && string_views(rules@)[k] == rule@;
            assert(rules@[k]@ == rule@);
        }
    }
    false
}

/// Declares one rule id: it must be well formed and not yet declared in this pack.
fn validate_rule_decl(rules: &mut Vec<String>, rule: &String) -> (r: Result<(), ModelError>)
    ensures
        r is Ok <==> (valid_rule_id(rule@) && !string_views(old(rules)@).contains(rule@)),
        r is Ok ==> string_views(final(rules)@) == string_views(old(rules)@).push(rule@),
        !valid_rule_id(rule@) ==> r matches Err(ModelError::StandardsInvalidRuleId { .. }),
        valid_rule_id(rule@) && string_views(old(rules)@).contains(rule@) ==> r matches Err(ModelError::StandardsDuplicateRuleId { .. }),
{
    if !is_valid_rule_id(rule.as_str()) {
        return Err(ModelError::StandardsInvalidRuleId { rule: rule.clone() });
    }
    if contains_string(rules, rule.as_str()) {
        return Err(ModelError::StandardsDuplicateRuleId { rule: rule.clone() });
    }
    rules.push(rule.clone());
    assert(string_views(rules@) =~= string_views(old(rules)@).push(rule@));
    Ok(())
}

/// Lexicographic strict order on four-component integer keys.
pub open spec fn key_lt(a: (int, int, int, int), b: (int, int, int, int)) -> bool {
    a.0 < b.0 || (a.0 == b.0 && (a.1 < b.1 || (a.1 == b.1 && (a.2 < b.2 || (a.2 == b.2 && a.3 < b.3)))))
}

/// A row key as four integers (unused trailing positions are zero).
pub open spec fn key_view(k: (i64, i64, i64, i64)) -> (int, int, int, int) {
    (k.0 as int, k.1 as int, k.2 as int, k.3 as int)
}

fn key_less(a: (i64, i64, i64, i64), b: (i64, i64, i64, i64)) -> (r: bool)
    ensures
        r == key_lt(key_view(a), key_view(b)),
{
    a.0 < b.0 || (a.0 == b.0 && (a.1 < b.1 || (a.1 == b.1 && (a.2 < b.2 || (a.2 == b.2 && a.3 < b.3)))))
}

/// The integer views of a sequence of row keys.
pub open spec fn key_views(keys: Seq<(i64, i64, i64, i64)>) -> Seq<(int, int, int, int)> {
    keys.map_values(|k: (i64, i64, i64, i64)| key_view(k))
}

/// Whether consecutive keys strictly increase.
pub open spec fn keys_strictly_increase(keys: Seq<(int, int, int, int)>) -> bool {
    forall|i: int| 0 <= i < keys.len() - 1 ==> key_lt(#[trigger] keys[i], keys[i + 1])
}

/// The natural key of a stud row: (profile, spacing).
pub open spec fn stud_key(r: StudRow) -> (int, int, int, int) {
    (profile_rank(r.profile), r.spacing.ticks as int, 0, 0)
}

/// The natural key of a header row: (profile, plies, snow load, building width).
pub open spec fn header_key(r: HeaderRow) -> (int, int, int, int) {
    (profile_rank(r.profile), r.plies as int, r.max_ground_snow_psf as int, r.max_building_width.ticks as int)
}

/// The natural key of a fastening row: its connection.
pub open spec fn fastening_key(r: FasteningRow) -> (int, int, int, int) {
    (connection_rank(r.connection), 0, 0, 0)
}

/// The natural key of a bracing row: (method, max seismic, max wind speed, line length).
pub open spec fn bracing_key(r: BracingRow) -> (int, int, int, int) {
    (
        bracing_rank(r.method),
        match r.max_seismic { Some(s) => seismic_rank(s), None => -1 },
        match r.max_wind_speed_mph { Some(w) => w as int, None => -1 },
        r.line_length.ticks as int,
    )
}

fn stud_key_exec(r: &StudRow) -> (k: (i64, i64, i64, i64))
    ensures
        key_view(k) == stud_key(*r),
{
    (profile_index(r.profile), r.spacing.ticks, 0, 0)
}

fn header_key_exec(r: &HeaderRow) -> (k: (i64, i64, i64, i64))
    ensures
        key_view(k) == header_key(*r),
{
    (profile_index(r.profile), r.plies as i64, r.max_ground_snow_psf as i64, r.max_building_width.ticks)
}

fn fastening_key_exec(r: &FasteningRow) -> (k: (i64, i64, i64, i64))
    ensures
        key_view(k) == fastening_key(*r),
{
    (connection_index(r.connection), 0, 0, 0)
}

fn bracing_key_exec(r: &BracingRow) -> (k: (i64, i64, i64, i64))
    ensures
        key_view(k) == bracing_key(*r),
{
    (
        r.method.index(),
        match r.max_seismic { Some(s) => seismic_index(s), None => -1 },
        match r.max_wind_speed_mph { Some(w) => w as i64, None => -1 },
        r.line_length.ticks,
    )
}

/// Rows must be strictly ordered by their natural keys.
fn validate_strict_keys(rule: &String, keys: &Vec<(i64, i64, i64, i64)>) -> (r: Result<(), ModelError>)
    ensures
        r is Ok <==> keys_strictly_increase(key_views(keys@)),
        r is Err ==> (r matches Err(ModelError::StandardsTableRowsNotStrictlyOrdered { rule: x }) && x@ == rule@),
{
    let ghost kv = key_views(keys@);
    let mut i: usize = 1;
    while i < keys.len()
        invariant
            1 <= i,
            i <= keys.len() || keys.len() == 0,
            kv == key_views(keys@),
            forall|j: int| 0 <= j < i - 1 && j < kv.len() - 1 ==> key_lt(#[trigger] kv[j], kv[j + 1]),
        decreases keys.len() - i,
    {
        if !key_less(keys[i - 1], keys[i]) {
            assert(!key_lt(kv[i - 1], kv[(i - 1) + 1]));
            return Err(ModelError::StandardsTableRowsNotStrictlyOrdered { rule: rule.clone() });
        }
        i = i + 1;
    }
    Ok(())
}

/// Whether a predicate only compares facts of `scope`, with matching operand types
/// and equality-only comparisons of flags.
pub open spec fn predicate_valid(p: Predicate, scope: FactScope) -> bool
    decreases p,
{
    match p {
        Predicate::All(children) => forall|i: int| 0 <= i < children.len() ==> predicate_valid(#[trigger] children@[i], scope),
        Predicate::Any(children) => forall|i: int| 0 <= i < children.len() ==> predicate_valid(#[trigger] children@[i], scope),
        Predicate::Not(child) => predicate_valid(*child, scope),
        Predicate::Compare { fact, op, value } => {
            &&& fact_scope(fact) == scope
            &&& fact_type(fact) == operand_type(value)
            &&& (fact_type(fact) == FactType::Flag ==> (op == CompareOp::Eq || op == CompareOp::Ne))
            &&& (value matches FactOperand::Fact(f) ==> fact_scope(f) == scope)
        },
    }
}

fn validate_fact_scope(rule: &String, fact: Fact, scope: FactScope) -> (r: Result<(), ModelError>)
    ensures
        r is Ok <==> fact_scope(fact) == scope,
        r is Err ==> r matches Err(ModelError::StandardsPredicateScopeMismatch { .. }),
{
    let fact_scope = fact.scope();
    if fact_scope == scope {
        Ok(())
    } else {
        Err(ModelError::StandardsPredicateScopeMismatch {
            rule: rule.clone(),
            fact: fact.name().to_owned(),
            expected_scope: scope.label().to_owned(),
            found_scope: fact_scope.label().to_owned(),
        })
    }
}

proof fn lemma_child_decreases(p: Predicate, i: int)
    requires
        match p {
            Predicate::All(c) => 0 <= i < c.len(),
            Predicate::Any(c) => 0 <= i < c.len(),
            _ => false,
        },
    ensures
        match p {
            Predicate::All(c) => decreases_to!(p => c@[i]),
            Predicate::Any(c) => decreases_to!(p => c@[i]),
            _ => true,
        },
{
    match p {
        Predicate::All(c) => {
            assert(decreases_to!(p => p->All_0));
            assert(decreases_to!(p->All_0 => p->All_0@));
            assert(decreases_to!(p->All_0@ => p->All_0@[i]));
        },
        Predicate::Any(c) => {
            assert(decreases_to!(p => p->Any_0));
            assert(decreases_to!(p->Any_0 => p->Any_0@));
            assert(decreases_to!(p->Any_0@ => p->Any_0@[i]));
        },
        _ => {},
    }
}

proof fn lemma_invalid_child(p: Predicate, i: int, scope: FactScope)
    requires
        match p {
            Predicate::All(c) => 0 <= i < c.len() && !predicate_valid(c@[i], scope),
            Predicate::Any(c) => 0 <= i < c.len() && !predicate_valid(c@[i], scope),
            _ => false,
        },
    ensures
        !predicate_valid(p, scope),
{
}

fn validate_predicate(rule: &String, predicate: &Predicate, scope: FactScope) -> (r: Result<(), ModelError>)
    ensures
        r is Ok <==> predicate_valid(*predicate, scope),
        r is Err ==> (r matches Err(ModelError::StandardsPredicateScopeMismatch { .. })
            || r matches Err(ModelError::StandardsPredicateTypeMismatch { .. })
            || r matches Err(ModelError::StandardsPredicateInvalidOperator { .. })),
    decreases predicate,
{
    match predicate {
        Predicate::All(children) => {
            let mut i: usize = 0;
            while i < children.len()
                invariant
                    *predicate == Predicate::All(*children),
                    i <= children.len(),
                    forall|j: int| 0 <= j < i ==> predicate_valid(#[trigger] children@[j], scope),
                decreases children.len() - i,
            {
                proof {
                    lemma_child_decreases(*predicate, i as int);
                }
                let child_result = validate_predicate(rule, &children[i], scope);
                if child_result.is_err() {
                    proof {
                        lemma_invalid_child(*predicate, i as int, scope);
                    }
                    return child_result;
                }
                i = i + 1;
            }
            Ok(())
        },
        Predicate::Any(children) => {
            let mut i: usize = 0;
            while i < children.len()
                invariant
                    *predicate == Predicate::Any(*children),
                    i <= children.len(),
                    forall|j: int| 0 <= j < i ==> predicate_valid(#[trigger] children@[j], scope),
                decreases children.len() - i,
            {
                proof {
                    lemma_child_decreases(*predicate, i as int);
                }
                let child_result = validate_predicate(rule, &children[i], scope);
                if child_result.is_err() {
                    proof {
                        lemma_invalid_child(*predicate, i as int, scope);
                    }
                    return child_result;
                }
                i = i + 1;
            }
            Ok(())
        },
        Predicate::Not(child) => validate_predicate(rule, child, scope),
        Predicate::Compare { fact, op, value } => {
            validate_fact_scope(rule, *fact, scope)?;
            let expected = fact.value_type();
            let found = value.value_type();
            if expected != found {
                return Err(ModelError::StandardsPredicateTypeMismatch {
                    rule: rule.clone(),
                    fact: fact.name().to_owned(),
                    expected: expected.name().to_owned(),
                    found: found.name().to_owned(),
                });
            }
            if expected == FactType::Flag && !(*op == CompareOp::Eq || *op == CompareOp::Ne) {
                return Err(ModelError::StandardsPredicateInvalidOperator {
                    rule: rule.clone(),
                    fact: fact.name().to_owned(),
                    op: op.label().to_owned(),
                });
            }
            match value.fact() {
                Some(operand_fact) => validate_fact_scope(rule, operand_fact, scope),
                None => Ok(()),
            }
        },
    }
}

} // verus!

verus! {

/// The rule ids a pack declares, in declaration order: stud tables, header tables,
/// fastening schedules, bracing tables, then checks.
pub open spec fn declared_rules(p: StandardsPack) -> Seq<Seq<char>> {
    p.tables.studs@.map_values(|t: StudTable| t.rule@)
        + p.tables.headers@.map_values(|t: HeaderSpanTable| t.rule@)
        + p.tables.fastening@.map_values(|t: FasteningSchedule| t.rule@)
        + p.tables.bracing@.map_values(|t: BracingTable| t.rule@)
        + p.checks@.map_values(|c: ComplianceCheck| c.rule@)
}

/// Every rule id is well formed and none repeats.
pub open spec fn rules_ok(s: Seq<Seq<char>>) -> bool {
    &&& forall|i: int| 0 <= i < s.len() ==> valid_rule_id(#[trigger] s[i])
    &&& forall|i: int, j: int| 0 <= i < j < s.len() ==> s[i] != s[j]
}

pub open spec fn stud_keys(t: StudTable) -> Seq<(int, int, int, int)> {
    t.rows@.map_values(|r: StudRow| stud_key(r))
}

pub open spec fn header_keys(t: HeaderSpanTable) -> Seq<(int, int, int, int)> {
    t.rows@.map_values(|r: HeaderRow| header_key(r))
}

pub open spec fn fastening_keys(t: FasteningSchedule) -> Seq<(int, int, int, int)> {
    t.rows@.map_values(|r: FasteningRow| fastening_key(r))
}

pub open spec fn bracing_keys(t: BracingTable) -> Seq<(int, int, int, int)> {
    t.rows@.map_values(|r: BracingRow| bracing_key(r))
}

/// Every table's rows are strictly ordered by their natural keys.
pub open spec fn rows_ordered(p: StandardsPack) -> bool {
    &&& forall|i: int| 0 <= i < p.tables.studs@.len() ==> keys_strictly_increase(stud_keys(#[trigger] p.tables.studs@[i]))
    &&& forall|i: int| 0 <= i < p.tables.headers@.len() ==> keys_strictly_increase(header_keys(#[trigger] p.tables.headers@[i]))
    &&& forall|i: int| 0 <= i < p.tables.fastening@.len() ==> keys_strictly_increase(fastening_keys(#[trigger] p.tables.fastening@[i]))
    &&& forall|i: int| 0 <= i < p.tables.bracing@.len() ==> keys_strictly_increase(bracing_keys(#[trigger] p.tables.bracing@[i]))
}

/// `rule` names the first table, in declaration order (stud tables, header
/// span tables, fastening schedules, bracing tables), whose rows are not
/// strictly ordered.
pub open spec fn first_unordered_table(p: StandardsPack, rule: Seq<char>) -> bool {
    let t = p.tables;
    let studs_ok = forall|j: int| 0 <= j < t.studs@.len() ==> keys_strictly_increase(stud_keys(#[trigger] t.studs@[j]));
    let headers_ok = forall|j: int| 0 <= j < t.headers@.len() ==> keys_strictly_increase(header_keys(#[trigger] t.headers@[j]));
    let fastening_ok = forall|j: int|
        0 <= j < t.fastening@.len() ==> keys_strictly_increase(fastening_keys(#[trigger] t.fastening@[j]));
    ||| exists|i: int|
        0 <= i < t.studs@.len() && (forall|j: int| 0 <= j < i ==> keys_strictly_increase(stud_keys(#[trigger] t.studs@[j])))
            && !keys_strictly_increase(stud_keys(#[trigger] t.studs@[i])) && rule == t.studs@[i].rule@
    ||| studs_ok && exists|i: int|
        0 <= i < t.headers@.len() && (forall|j: int| 0 <= j < i ==> keys_strictly_increase(header_keys(#[trigger] t.headers@[j])))
            && !keys_strictly_increase(header_keys(#[trigger] t.headers@[i])) && rule == t.headers@[i].rule@
    ||| studs_ok && headers_ok && exists|i: int|
        0 <= i < t.fastening@.len() && (forall|j: int|
            0 <= j < i ==> keys_strictly_increase(fastening_keys(#[trigger] t.fastening@[j])))
            && !keys_strictly_increase(fastening_keys(#[trigger] t.fastening@[i])) && rule == t.fastening@[i].rule@
    ||| studs_ok && headers_ok && fastening_ok && exists|i: int|
        0 <= i < t.bracing@.len() && (forall|j: int| 0 <= j < i ==> keys_strictly_increase(bracing_keys(#[trigger] t.bracing@[j])))
            && !keys_strictly_increase(bracing_keys(#[trigger] t.bracing@[i])) && rule == t.bracing@[i].rule@
}

/// Every check's requirement is well typed and scoped.
pub open spec fn checks_valid(p: StandardsPack) -> bool {
    forall|i: int| 0 <= i < p.checks@.len() ==> predicate_valid((#[trigger] p.checks@[i]).requirement, check_scope_kind(p.checks@[i].scope))
}

/// Every waive overlay carries a non-blank reason.
pub open spec fn overlays_valid(p: StandardsPack) -> bool {
    forall|i: int| 0 <= i < p.overlays@.len() ==> match #[trigger] p.overlays@[i] {
        RuleOverlay::Waive { reason, .. } => !is_blank(reason@),
        RuleOverlay::Severity { .. } => true,
    }
}

/// The full validity of a standards pack.
pub open spec fn pack_valid(p: StandardsPack) -> bool {
    &&& valid_id(p.id@)
    &&& rules_ok(declared_rules(p))
    &&& rows_ordered(p)
    &&& checks_valid(p)
    &&& overlays_valid(p)
}

proof fn lemma_rules_prefix_ok(s: Seq<Seq<char>>, n: int)
    requires
        rules_ok(s.subrange(0, n)),
        0 <= n < s.len(),
        valid_rule_id(s[n]),
        !s.subrange(0, n).contains(s[n]),
    ensures
        rules_ok(s.subrange(0, n + 1)),
{
    let a = s.subrange(0, n);
    let b = s.subrange(0, n + 1);
    assert forall|i: int| 0 <= i < b.len() implies valid_rule_id(#[trigger] b[i]) by {
        if i < n {
            assert(b[i] == a[i]);
        }
    }
    assert forall|i: int, j: int| 0 <= i < j < b.len() implies b[i] != b[j] by {
        if j < n {
            assert(b[i] == a[i] && b[j] == a[j]);
        } else {
            assert(b[i] == a[i]);
        }
    }
}

proof fn lemma_rules_prefix_bad(s: Seq<Seq<char>>, n: int)
    requires
        0 <= n < s.len(),
        !valid_rule_id(s[n]) || s.subrange(0, n).contains(s[n]),
    ensures
        !rules_ok(s),
{
    if s.subrange(0, n).contains(s[n]) {
        let k = choose|k: int| 0 <= k < n && s.subrange(0, n)[k] == s[n];
        assert(s[k] == s[n]);
    }
}

fn stud_keys_exec(t: &StudTable) -> (keys: Vec<(i64, i64, i64, i64)>)
    ensures
        key_views(keys@) == stud_keys(*t),
{
    let mut keys: Vec<(i64, i64, i64, i64)> = Vec::new();
    let mut i: usize = 0;
    while i < t.rows.len()
        invariant
            i <= t.rows.len(),
            key_views(keys@) == stud_keys(*t).subrange(0, i as int),
        decreases t.rows.len() - i,
    {
        let ghost before = keys@;
        keys.push(stud_key_exec(&t.rows[i]));
        assert(key_views(keys@) =~= key_views(before).push(stud_key(t.rows@[i as int])));
        assert(key_views(keys@) =~= stud_keys(*t).subrange(0, i + 1));
        i = i + 1;
    }
    assert(stud_keys(*t).subrange(0, i as int) =~= stud_keys(*t));
    keys
}

fn header_keys_exec(t: &HeaderSpanTable) -> (keys: Vec<(i64, i64, i64, i64)>)
    ensures
        key_views(keys@) == header_keys(*t),
{
    let mut keys: Vec<(i64, i64, i64, i64)> = Vec::new();
    let mut i: usize = 0;
    while i < t.rows.len()
        invariant
            i <= t.rows.len(),
            key_views(keys@) == header_keys(*t).subrange(0, i as int),
        decreases t.rows.len() - i,
    {
        let ghost before = keys@;
        keys.push(header_key_exec(&t.rows[i]));
        assert(key_views(keys@) =~= key_views(before).push(header_key(t.rows@[i as int])));
        assert(key_views(keys@) =~= header_keys(*t).subrange(0, i + 1));
        i = i + 1;
    }
    assert(header_keys(*t).subrange(0, i as int) =~= header_keys(*t));
    keys
}

fn fastening_keys_exec(t: &FasteningSchedule) -> (keys: Vec<(i64, i64, i64, i64)>)
    ensures
        key_views(keys@) == fastening_keys(*t),
{
    let mut keys: Vec<(i64, i64, i64, i64)> = Vec::new();
    let mut i: usize = 0;
    while i < t.rows.len()
        invariant
            i <= t.rows.len(),
            key_views(keys@) == fastening_keys(*t).subrange(0, i as int),
        decreases t.rows.len() - i,
    {
        let ghost before = keys@;
        keys.push(fastening_key_exec(&t.rows[i]));
        assert(key_views(keys@) =~= key_views(before).push(fastening_key(t.rows@[i as int])));
        assert(key_views(keys@) =~= fastening_keys(*t).subrange(0, i + 1));
        i = i + 1;
    }
    assert(fastening_keys(*t).subrange(0, i as int) =~= fastening_keys(*t));
    keys
}

fn bracing_keys_exec(t: &BracingTable) -> (keys: Vec<(i64, i64, i64, i64)>)
    ensures
        key_views(keys@) == bracing_keys(*t),
{
    let mut keys: Vec<(i64, i64, i64, i64)> = Vec::new();
    let mut i: usize = 0;
    while i < t.rows.len()
        invariant
            i <= t.rows.len(),
            key_views(keys@) == bracing_keys(*t).subrange(0, i as int),
        decreases t.rows.len() - i,
    {
        let ghost before = keys@;
        keys.push(bracing_key_exec(&t.rows[i]));
        assert(key_views(keys@) =~= key_views(before).push(bracing_key(t.rows@[i as int])));
        assert(key_views(keys@) =~= bracing_keys(*t).subrange(0, i + 1));
        i = i + 1;
    }
    assert(bracing_keys(*t).subrange(0, i as int) =~= bracing_keys(*t));
    keys
}

/// Declares `rule` at position `n` of `decl`, keeping the declared prefix valid.
fn declare_at(rules: &mut Vec<String>, rule: &String, Ghost(decl): Ghost<Seq<Seq<char>>>, Ghost(n): Ghost<int>) -> (r: Result<(), ModelError>)
    requires
        0 <= n < decl.len(),
        decl[n] == rule@,
        string_views(old(rules)@) == decl.subrange(0, n),
        rules_ok(decl.subrange(0, n)),
    ensures
        r is Ok ==> string_views(final(rules)@) == decl.subrange(0, n + 1) && rules_ok(decl.subrange(0, n + 1)),
        r is Err ==> !rules_ok(decl),
{
    let res = validate_rule_decl(rules, rule);
    proof {
        if res is Ok {
            lemma_rules_prefix_ok(decl, n);
            assert(decl.subrange(0, n).push(decl[n]) =~= decl.subrange(0, n + 1));
        } else {
            lemma_rules_prefix_bad(decl, n);
        }
    }
    res
}

impl StandardsPack {
    /// Validates the pack id, every declared rule id (well formed, unique within the
    /// pack), the strict ordering of every table's rows, every check's requirement,
    /// and that every waive overlay carries a reason.
    pub fn validate(&self) -> (r: Result<(), ModelError>)
        ensures
            r is Ok <==> pack_valid(*self),
            valid_id(self.id@) && rules_ok(declared_rules(*self)) && !rows_ordered(*self) ==> r matches Err(
                ModelError::StandardsTableRowsNotStrictlyOrdered { .. },
            ),
            forall|rule: Seq<char>|
                valid_id(self.id@) && rules_ok(declared_rules(*self)) && #[trigger] first_unordered_table(*self, rule) ==> (r matches Err(
                    ModelError::StandardsTableRowsNotStrictlyOrdered { rule: x },
                ) && x@ == rule),
    {
        validate_element_id(&self.id)?;
        let ghost decl = declared_rules(*self);
        let ghost ns = self.tables.studs@.len() as int;
        let ghost nh = self.tables.headers@.len() as int;
        let ghost nf = self.tables.fastening@.len() as int;
        let ghost nb = self.tables.bracing@.len() as int;
        let ghost nc = self.checks@.len() as int;
        assert(decl.len() == ns + nh + nf + nb + nc);
        let mut rules: Vec<String> = Vec::new();
        assert(string_views(rules@) =~= decl.subrange(0, 0));
        let mut i: usize = 0;
        while i < self.tables.studs.len()
            invariant
                decl == declared_rules(*self),
                decl.len() == ns + nh + nf + nb + nc,
                ns == self.tables.studs@.len(),
                i <= ns,
                string_views(rules@) == decl.subrange(0, i as int),
                rules_ok(decl.subrange(0, i as int)),
                forall|j: int| 0 <= j < i ==> keys_strictly_increase(stud_keys(#[trigger] self.tables.studs@[j])),
            decreases ns - i,
        {
            let t = &self.tables.studs[i];
            assert(decl[i as int] == t.rule@);
            declare_at(&mut rules, &t.rule, Ghost(decl), Ghost(i as int))?;
            let keys = stud_keys_exec(t);
            let ordered = validate_strict_keys(&t.rule, &keys);
            if ordered.is_err() {
                return ordered;
            }
            i = i + 1;
        }
        i = 0;
        while i < self.tables.headers.len()
            invariant
                decl == declared_rules(*self),
                decl.len() == ns + nh + nf + nb + nc,
                ns == self.tables.studs@.len(),
                nh == self.tables.headers@.len(),
                i <= nh,
                string_views(rules@) == decl.subrange(0, ns + i),
                rules_ok(decl.subrange(0, ns + i)),
                forall|j: int| 0 <= j < ns ==> keys_strictly_increase(stud_keys(#[trigger] self.tables.studs@[j])),
                forall|j: int| 0 <= j < i ==> keys_strictly_increase(header_keys(#[trigger] self.tables.headers@[j])),
            decreases nh - i,
        {
            let t = &self.tables.headers[i];
            assert(decl[ns + i] == t.rule@);
            declare_at(&mut rules, &t.rule, Ghost(decl), Ghost(ns + i))?;
            let keys = header_keys_exec(t);
            let ordered = validate_strict_keys(&t.rule, &keys);
            if ordered.is_err() {
                return ordered;
            }
            i = i + 1;
        }
        i = 0;
        while i < self.tables.fastening.len()
            invariant
                decl == declared_rules(*self),
                decl.len() == ns + nh + nf + nb + nc,
                ns == self.tables.studs@.len(),
                nh == self.tables.headers@.len(),
                nf == self.tables.fastening@.len(),
                i <= nf,
                string_views(rules@) == decl.subrange(0, ns + nh + i),
                rules_ok(decl.subrange(0, ns + nh + i)),
                forall|j: int| 0 <= j < ns ==> keys_strictly_increase(stud_keys(#[trigger] self.tables.studs@[j])),
                forall|j: int| 0 <= j < nh ==> keys_strictly_increase(header_keys(#[trigger] self.tables.headers@[j])),
                forall|j: int| 0 <= j < i ==> keys_strictly_increase(fastening_keys(#[trigger] self.tables.fastening@[j])),
            decreases nf - i,
        {
            let t = &self.tables.fastening[i];
            assert(decl[ns + nh + i] == t.rule@);
            declare_at(&mut rules, &t.rule, Ghost(decl), Ghost(ns + nh + i))?;
            let keys = fastening_keys_exec(t);
            let ordered = validate_strict_keys(&t.rule, &keys);
            if ordered.is_err() {
                return ordered;
            }
            i = i + 1;
        }
        i = 0;
        while i < self.tables.bracing.len()
            invariant
                decl == declared_rules(*self),
                decl.len() == ns + nh + nf + nb + nc,
                ns == self.tables.studs@.len(),
                nh == self.tables.headers@.len(),
                nf == self.tables.fastening@.len(),
                nb == self.tables.bracing@.len(),
                i <= nb,
                string_views(rules@) == decl.subrange(0, ns + nh + nf + i),
                rules_ok(decl.subrange(0, ns + nh + nf + i)),
                forall|j: int| 0 <= j < ns ==> keys_strictly_increase(stud_keys(#[trigger] self.tables.studs@[j])),
                forall|j: int| 0 <= j < nh ==> keys_strictly_increase(header_keys(#[trigger] self.tables.headers@[j])),
                forall|j: int| 0 <= j < nf ==> keys_strictly_increase(fastening_keys(#[trigger] self.tables.fastening@[j])),
                forall|j: int| 0 <= j < i ==> keys_strictly_increase(bracing_keys(#[trigger] self.tables.bracing@[j])),
            decreases nb - i,
        {
            let t = &self.tables.bracing[i];
            assert(decl[ns + nh + nf + i] == t.rule@);
            declare_at(&mut rules, &t.rule, Ghost(decl), Ghost(ns + nh + nf + i))?;
            let keys = bracing_keys_exec(t);
            let ordered = validate_strict_keys(&t.rule, &keys);
            if ordered.is_err() {
                return ordered;
            }
            i = i + 1;
        }
        assert(rows_ordered(*self));
        i = 0;
        while i < self.checks.len()
            invariant
                decl == declared_rules(*self),
                decl.len() == ns + nh + nf + nb + nc,
                nc == self.checks@.len(),
                ns + nh + nf + nb + nc == decl.len(),
                i <= nc,
                string_views(rules@) == decl.subrange(0, ns + nh + nf + nb + i),
                rules_ok(decl.subrange(0, ns + nh + nf + nb + i)),
                rows_ordered(*self),
                forall|j: int| 0 <= j < i ==> predicate_valid((#[trigger] self.checks@[j]).requirement, check_scope_kind(self.checks@[j].scope)),
            decreases nc - i,
        {
            let c = &self.checks[i];
            assert(decl[ns + nh + nf + nb + i] == c.rule@);
            declare_at(&mut rules, &c.rule, Ghost(decl), Ghost(ns + nh + nf + nb + i))?;
            let scope = c.scope.fact_scope();
            let checked = validate_predicate(&c.rule, &c.requirement, scope);
            if checked.is_err() {
                return checked;
            }
            i = i + 1;
        }
        assert(decl.subrange(0, decl.len() as int) =~= decl);
        i = 0;
        while i < self.overlays.len()
            invariant
                i <= self.overlays.len(),
                rules_ok(decl),
                decl == declared_rules(*self),
                rows_ordered(*self),
                checks_valid(*self),
                forall|j: int| 0 <= j < i ==> match #[trigger] self.overlays@[j] {
                    RuleOverlay::Waive { reason, .. } => !is_blank(reason@),
                    RuleOverlay::Severity { .. } => true,
                },
            decreases self.overlays.len() - i,
        {
            match &self.overlays[i] {
                RuleOverlay::Waive { target, reason } => {
                    if str_is_blank(reason.as_str()) {
                        return Err(ModelError::StandardsOverlayMissingReason { target: target.clone() });
                    }
                },
                RuleOverlay::Severity { .. } => {},
            }
            i = i + 1;
        }
        Ok(())
    }
}

} // verus!

verus! {

/// The IRC 2021 prescriptive starter pack: its id, name and edition, the
/// starter defaults and tables, no checks, overlays, tags or properties, and valid.
pub open spec fn starter_pack(r: StandardsPack) -> bool {
    &&& r.id@ == "std-irc-2021"@
    &&& r.name@ == "IRC 2021 Prescriptive (starter)"@
    &&& r.edition@ == "2021"@
    &&& r.source is None
    &&& r.tables.defaults == starter_defaults()
    &&& starter_tables(r.tables)
    &&& r.tables.bracing@.len() == 0
    &&& r.checks@.len() == 0
    &&& r.overlays@.len() == 0
    &&& r.tags@.len() == 0
    &&& forall|k: Seq<char>| #[trigger] r.properties.value_of(k) is None
    &&& pack_valid(r)
}

/// The starter pack's tables: the IRC 2021 stud heights, header spans and
/// fastening schedule rows, in order.
pub open spec fn starter_tables(t: StandardsTables) -> bool {
    &&& t.studs@.len() == 1
    &&& t.studs@[0].rule@ == "irc2021.r602.3-5.studs"@
    &&& t.studs@[0].citation@ == "IRC 2021 Table R602.3(5)"@
    &&& t.studs@[0].rows@.len() == 4
    &&& stud_row_is(t.studs@[0].rows@[0], BoardProfile::TwoByFour, 16, 120, 168)
    &&& stud_row_is(t.studs@[0].rows@[1], BoardProfile::TwoByFour, 24, 120, 144)
    &&& stud_row_is(t.studs@[0].rows@[2], BoardProfile::TwoBySix, 16, 168, 240)
    &&& stud_row_is(t.studs@[0].rows@[3], BoardProfile::TwoBySix, 24, 144, 216)
    &&& t.headers@.len() == 1
    &&& t.headers@[0].rule@ == "irc2021.r602.7-1.headers"@
    &&& t.headers@[0].citation@ == "IRC 2021 Table R602.7(1)"@
    &&& t.headers@[0].rows@.len() == 4
    &&& header_row_is(t.headers@[0].rows@[0], BoardProfile::TwoByTen, 1, 48, 1)
    &&& header_row_is(t.headers@[0].rows@[1], BoardProfile::TwoByTen, 2, 72, 1)
    &&& header_row_is(t.headers@[0].rows@[2], BoardProfile::TwoByTwelve, 1, 60, 1)
    &&& header_row_is(t.headers@[0].rows@[3], BoardProfile::TwoByTwelve, 2, 96, 2)
    &&& t.fastening@.len() == 1
    &&& t.fastening@[0].rule@ == "irc2021.r602.3-1.fastening"@
    &&& t.fastening@[0].citation@ == "IRC 2021 Table R602.3(1)"@
    &&& t.fastening@[0].rows@.len() == 4
    &&& t.fastening@[0].rows@[0].connection == ConnectionKind::StudToPlateEnd
    &&& t.fastening@[0].rows@[0].fastener@ == "16d common nail"@
    &&& t.fastening@[0].rows@[0].schedule == FastenerSchedule::Count(2)
    &&& t.fastening@[0].rows@[1].connection == ConnectionKind::StudToPlateToe
    &&& t.fastening@[0].rows@[1].fastener@ == "8d common nail"@
    &&& t.fastening@[0].rows@[1].schedule == FastenerSchedule::Count(4)
    &&& t.fastening@[0].rows@[2].connection == ConnectionKind::TopPlateLap
    &&& t.fastening@[0].rows@[2].fastener@ == "16d common nail"@
    &&& t.fastening@[0].rows@[2].schedule == FastenerSchedule::Count(8)
    &&& t.fastening@[0].rows@[3].connection == ConnectionKind::DoubleTopPlate
    &&& t.fastening@[0].rows@[3].fastener@ == "16d common nail"@
    &&& t.fastening@[0].rows@[3].schedule == (FastenerSchedule::Spacing { on_center: Length { ticks: 256 } })
}

/// A stud row for `profile` at `spacing` inches on center, with the given
/// bearing and non-bearing height limits in inches.
pub open spec fn stud_row_is(r: StudRow, profile: BoardProfile, spacing: int, bearing: int, nonbearing: int) -> bool {
    &&& r.profile == profile
    &&& r.spacing.ticks == spacing * 16
    &&& r.max_height_bearing.ticks == bearing * 16
    &&& r.max_height_nonbearing.ticks == nonbearing * 16
}

/// A header row for `plies` of `profile` spanning `span` inches on `jack_studs`
/// jack studs, for 30 psf ground snow and buildings up to 36 ft wide.
pub open spec fn header_row_is(r: HeaderRow, profile: BoardProfile, plies: int, span: int, jack_studs: int) -> bool {
    &&& r.profile == profile
    &&& r.plies == plies
    &&& r.max_ground_snow_psf == 30
    &&& r.max_building_width.ticks == 6912
    &&& r.max_span.ticks == span * 16
    &&& r.jack_studs == jack_studs
}

fn stud_row(profile: BoardProfile, spacing_in: i64, bearing_in: i64, nonbearing_in: i64) -> (r: StudRow)
    requires
        0 <= spacing_in <= 1000,
        0 <= bearing_in <= 1000,
        0 <= nonbearing_in <= 1000,
    ensures
        r.profile == profile,
        r.spacing.ticks == spacing_in * 16,
        r.max_height_bearing.ticks == bearing_in * 16,
        r.max_height_nonbearing.ticks == nonbearing_in * 16,
{
    StudRow {
        profile,
        spacing: Length::from_whole_inches(spacing_in),
        max_height_bearing: Length::from_whole_inches(bearing_in),
        max_height_nonbearing: Length::from_whole_inches(nonbearing_in),
    }
}

fn header_row(profile: BoardProfile, plies: u8, span_in: i64, jack_studs: u8) -> (r: HeaderRow)
    requires
        0 <= span_in <= 1000,
    ensures
        r.profile == profile,
        r.plies == plies,
        r.max_ground_snow_psf == 30,
        r.max_building_width.ticks == 6912,
        r.max_span.ticks == span_in * 16,
        r.jack_studs == jack_studs,
{
    HeaderRow {
        profile,
        plies,
        max_ground_snow_psf: 30,
        max_building_width: Length::from_whole_inches(432),
        max_span: Length::from_whole_inches(span_in),
        jack_studs,
    }
}

fn fastening_row(connection: ConnectionKind, fastener: &str, schedule: FastenerSchedule) -> (r: FasteningRow)
    ensures
        r.connection == connection,
        r.fastener@ == fastener@,
        r.schedule == schedule,
{
    FasteningRow { connection, fastener: fastener.to_owned(), schedule }
}

impl StandardsPack {
    /// The IRC 2021 prescriptive starter pack: one stud table, one header span
    /// table and one fastening schedule, with no checks or overlays. It validates.
    pub fn irc_2021_starter() -> (r: StandardsPack)
        ensures
            starter_pack(r),
    {
        let studs_rule = "irc2021.r602.3-5.studs";
        let headers_rule = "irc2021.r602.7-1.headers";
        let fastening_rule = "irc2021.r602.3-1.fastening";
        let id = "std-irc-2021";
        proof {
            reveal_strlit("irc2021.r602.3-5.studs");
            reveal_strlit("irc2021.r602.7-1.headers");
            reveal_strlit("irc2021.r602.3-1.fastening");
            reveal_strlit("std-irc-2021");
        }
        let studs = vec![StudTable {
            rule: studs_rule.to_owned(),
            citation: "IRC 2021 Table R602.3(5)".to_owned(),
            rows: vec![
                stud_row(BoardProfile::TwoByFour, 16, 120, 168),
                stud_row(BoardProfile::TwoByFour, 24, 120, 144),
                stud_row(BoardProfile::TwoBySix, 16, 168, 240),
                stud_row(BoardProfile::TwoBySix, 24, 144, 216),
            ],
        }];
        let headers = vec![HeaderSpanTable {
            rule: headers_rule.to_owned(),
            citation: "IRC 2021 Table R602.7(1)".to_owned(),
            rows: vec![
                header_row(BoardProfile::TwoByTen, 1, 48, 1),
                header_row(BoardProfile::TwoByTen, 2, 72, 1),
                header_row(BoardProfile::TwoByTwelve, 1, 60, 1),
                header_row(BoardProfile::TwoByTwelve, 2, 96, 2),
            ],
        }];
        let fastening = vec![FasteningSchedule {
            rule: fastening_rule.to_owned(),
            citation: "IRC 2021 Table R602.3(1)".to_owned(),
            rows: vec![
                fastening_row(ConnectionKind::StudToPlateEnd, "16d common nail", FastenerSchedule::Count(2)),
                fastening_row(ConnectionKind::StudToPlateToe, "8d common nail", FastenerSchedule::Count(4)),
                fastening_row(ConnectionKind::TopPlateLap, "16d common nail", FastenerSchedule::Count(8)),
                fastening_row(
                    ConnectionKind::DoubleTopPlate,
                    "16d common nail",
                    FastenerSchedule::Spacing { on_center: Length::from_whole_inches(16) },
                ),
            ],
        }];
        let r = StandardsPack {
            id: ElementId::from_str(id),
            name: "IRC 2021 Prescriptive (starter)".to_owned(),
            edition: "2021".to_owned(),
            source: None,
            tables: StandardsTables {
                defaults: FramingDefaults::irc_2021_starter(),
                studs,
                headers,
                fastening,
                bracing: Vec::new(),
            },
            checks: Vec::new(),
            overlays: Vec::new(),
            tags: Vec::new(),
            properties: PropertyMap::new(),
        };
        proof {
            let d = declared_rules(r);
            assert(d =~= seq![studs_rule@, headers_rule@, fastening_rule@]);
            assert(d[0].len() != d[1].len());
            assert(d[0].len() != d[2].len());
            assert(d[1].len() != d[2].len());
            assert(rules_ok(d));
            assert(stud_keys(r.tables.studs@[0]) =~= seq![(0int, 256int, 0int, 0int), (0, 384, 0, 0), (1, 256, 0, 0), (1, 384, 0, 0)]);
            assert(header_keys(r.tables.headers@[0]) =~= seq![(3int, 1int, 30int, 6912int), (3, 2, 30, 6912), (4, 1, 30, 6912), (4, 2, 30, 6912)]);
            assert(fastening_keys(r.tables.fastening@[0]) =~= seq![(0int, 0int, 0int, 0int), (1, 0, 0, 0), (2, 0, 0, 0), (3, 0, 0, 0)]);
            assert(rows_ordered(r));
        }
        r
    }
}

} // verus!
