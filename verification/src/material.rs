//! Materials, their appearances, typed properties and content-addressed assets.

use vstd::prelude::*;

use crate::element::ElementId;
use crate::error::ModelError;
use crate::text::{is_blank, is_lower_hex, str_eq, str_is_blank};
use crate::units::{Length, truncating_div};

verus! {

/// Binary asset role carried by an asset reference.
#[derive(Debug, Clone, Copy, PartialEq, Eq, Structural)]
pub enum TextureRole {
    Texture,
    Height,
}

/// Where a vendored definition came from.
#[derive(Debug)]
pub struct Provenance {
    pub library_uid: String,
    pub version_id: String,
    pub source_id: ElementId,
    pub content_hash: String,
}

impl Clone for Provenance {
    fn clone(&self) -> (r: Self)
        ensures
            r == *self,
    {
        Provenance {
            library_uid: self.library_uid.clone(),
            version_id: self.version_id.clone(),
            source_id: self.source_id.clone(),
            content_hash: self.content_hash.clone(),
        }
    }
}

/// Where a material is defined: embedded in the project, or vendored from a library.
#[derive(Debug)]
pub enum MaterialSource {
    Project,
    Library(Provenance),
}

impl Clone for MaterialSource {
    fn clone(&self) -> (r: Self)
        ensures
            r == *self,
    {
        match self {
            MaterialSource::Project => MaterialSource::Project,
            MaterialSource::Library(p) => MaterialSource::Library(p.clone()),
        }
    }
}

impl MaterialSource {
    pub fn is_project(&self) -> (r: bool)
        ensures
            r == (*self is Project),
    {
        match self {
            MaterialSource::Project => true,
            MaterialSource::Library(_) => false,
        }
    }
}

/// A typed property value for the extensible property maps.
#[derive(Debug)]
pub enum PropertyValue {
    Int(i64),
    Length(Length),
    Text(String),
    Flag(bool),
}

impl Clone for PropertyValue {
    fn clone(&self) -> (r: Self)
        ensures
            r == *self,
    {
        match self {
            PropertyValue::Int(v) => PropertyValue::Int(*v),
            PropertyValue::Length(v) => PropertyValue::Length(*v),
            PropertyValue::Text(v) => PropertyValue::Text(v.clone()),
            PropertyValue::Flag(v) => PropertyValue::Flag(*v),
        }
    }
}

/// A string-keyed property map. Keys are kept distinct; entry order carries no meaning.
#[derive(Debug)]
pub struct PropertyMap {
    entries: Vec<(String, PropertyValue)>,
}

impl Clone for PropertyMap {
    fn clone(&self) -> (r: Self)
        ensures
            forall|k: Seq<char>| r.value_of(k) == self.value_of(k),
    {
        proof {
            use_type_invariant(self);
        }
        let mut entries: Vec<(String, PropertyValue)> = Vec::new();
        let mut i: usize = 0;
        while i < self.entries.len()
            invariant
                i <= self.entries.len(),
                entries@ == self.entries@.subrange(0, i as int),
            decreases self.entries.len() - i,
        {
            let (k, v) = &self.entries[i];
            entries.push((k.clone(), v.clone()));
            assert(entries@ =~= self.entries@.subrange(0, i + 1));
            i = i + 1;
        }
        assert(entries@ =~= self.entries@);
        PropertyMap { entries }
    }
}

/// Whether the keys of `entries` are pairwise distinct.
pub open spec fn keys_distinct(entries: Seq<(String, PropertyValue)>) -> bool {
    forall|i: int, j: int|
        0 <= i < j < entries.len() ==> entries[i].0@ != entries[j].0@
}

/// The value stored under `key`, if any (meaningful when keys are distinct).
pub open spec fn lookup(entries: Seq<(String, PropertyValue)>, key: Seq<char>) -> Option<
    PropertyValue,
> {
    if exists|i: int| 0 <= i < entries.len() && entries[i].0@ == key {
        Some(entries[choose|i: int| 0 <= i < entries.len() && entries[i].0@ == key].1)
    } else {
        None
    }
}

/// With distinct keys, the entry at `i` is what `lookup` finds under its key.
pub proof fn lemma_lookup_at(entries: Seq<(String, PropertyValue)>, i: int)
    requires
        keys_distinct(entries),
        0 <= i < entries.len(),
    ensures
        lookup(entries, entries[i].0@) == Some(entries[i].1),
{
    let key = entries[i].0@;
    assert(exists|j: int| 0 <= j < entries.len() && entries[j].0@ == key) by {
        assert(entries[i].0@ == key);
    }
    let k = choose|j: int| 0 <= j < entries.len() && entries[j].0@ == key;
    if k != i {
        if k < i {
            assert(entries[k].0@ != entries[i].0@);
        } else {
            assert(entries[i].0@ != entries[k].0@);
        }
    }
}

/// A key held by no entry has no value.
pub proof fn lemma_lookup_absent(entries: Seq<(String, PropertyValue)>, key: Seq<char>)
    requires
        forall|j: int| 0 <= j < entries.len() ==> entries[j].0@ != key,
    ensures
        lookup(entries, key) is None,
{
}

impl PropertyMap {
    #[verifier::type_invariant]
    spec fn distinct_keys(self) -> bool {
        keys_distinct(self.entries@)
    }

    /// The value stored under `key`, if any.
    pub closed spec fn value_of(&self, key: Seq<char>) -> Option<PropertyValue> {
        lookup(self.entries@, key)
    }

    /// Whether no key is stored.
    pub closed spec fn is_empty_spec(&self) -> bool {
        self.entries@.len() == 0
    }

    pub fn new() -> (r: PropertyMap)
        ensures
            forall|k: Seq<char>| r.value_of(k) is None,
            r.is_empty_spec(),
    {
        PropertyMap { entries: Vec::new() }
    }

    pub fn is_empty(&self) -> (r: bool)
        ensures
            r == self.is_empty_spec(),
    {
        self.entries.len() == 0
    }

    /// The stored entries, each key once, in no meaningful order.
    pub fn entries(&self) -> (r: &Vec<(String, PropertyValue)>)
        ensures
            forall|i: int| 0 <= i < r@.len() ==> self.value_of(#[trigger] r@[i].0@) == Some(r@[i].1),
            forall|k: Seq<char>| (#[trigger] self.value_of(k)) is Some ==> exists|i: int| 0 <= i < r@.len() && r@[i].0@ == k,
    {
        proof {
            use_type_invariant(self);
            assert forall|i: int| 0 <= i < self.entries@.len() implies self.value_of(#[trigger] self.entries@[i].0@) == Some(self.entries@[i].1) by {
                lemma_lookup_at(self.entries@, i);
            }
        }
        &self.entries
    }

    /// The value stored under `key`.
    pub fn get(&self, key: &str) -> (r: Option<&PropertyValue>)
        ensures
            r matches Some(v) ==> self.value_of(key@) == Some(*v),
            r is None ==> self.value_of(key@) is None,
    {
        proof {
            use_type_invariant(self);
        }
        let mut i: usize = 0;
        while i < self.entries.len()
            invariant
                i <= self.entries.len(),
                keys_distinct(self.entries@),
                forall|j: int| 0 <= j < i ==> self.entries@[j].0@ != key@,
            decreases self.entries.len() - i,
        {
            if str_eq(self.entries[i].0.as_str(), key) {
                proof {
                    lemma_lookup_at(self.entries@, i as int);
                }
                return Some(&self.entries[i].1);
            }
            i = i + 1;
        }
        None
    }

    /// Stores `value` under `key`, replacing any previous value.
    pub fn insert(&mut self, key: String, value: PropertyValue)
        ensures
            final(self).value_of(key@) == Some(value),
            forall|k: Seq<char>|
                k != key@ ==> final(self).value_of(k) == old(self).value_of(k),
    {
        proof {
            use_type_invariant(&*self);
        }
        let ghost before = self.entries@;
        let mut entries: Vec<(String, PropertyValue)> = Vec::new();
        std::mem::swap(&mut entries, &mut self.entries);
        let mut i: usize = 0;
        while i < entries.len()
            invariant
                i <= entries.len(),
                entries@ == before,
                before == old(self).entries@,
                keys_distinct(before),
                forall|j: int| 0 <= j < i ==> entries@[j].0@ != key@,
            decreases entries.len() - i,
        {
            if entries[i].0 == key {
                entries.set(i, (key, value));
                proof {
                    let after = entries@;
                    assert(keys_distinct(after)) by {
                        assert forall|a: int, b: int| 0 <= a < b < after.len() implies after[a].0@
                            != after[b].0@ by {
                            assert(before[a].0@ != before[b].0@);
                        }
                    }
                    lemma_lookup_at(after, i as int);
                    assert forall|k: Seq<char>| k != key@ implies lookup(after, k) == lookup(
                        before,
                        k,
                    ) by {
                        if exists|j: int| 0 <= j < before.len() && before[j].0@ == k {
                            let j = choose|j: int| 0 <= j < before.len() && before[j].0@ == k;
                            lemma_lookup_at(before, j);
                            lemma_lookup_at(after, j);
                        } else {
                            lemma_lookup_absent(before, k);
                            assert forall|j: int| 0 <= j < after.len() implies after[j].0@
                                != k by {
                                if j != i {
                                    assert(before[j].0@ != k);
                                }
                            }
                            lemma_lookup_absent(after, k);
                        }
                    }
                }
                self.entries = entries;
                return ;
            }
            i = i + 1;
        }
        entries.push((key, value));
        proof {
            let after = entries@;
            let n = before.len() as int;
            assert(keys_distinct(after)) by {
                assert forall|a: int, b: int| 0 <= a < b < after.len() implies after[a].0@
                    != after[b].0@ by {
                    if b < n {
                        assert(before[a].0@ != before[b].0@);
                    }
                }
            }
            lemma_lookup_at(after, n);
            assert forall|k: Seq<char>| k != key@ implies lookup(after, k) == lookup(before, k) by {
                if exists|j: int| 0 <= j < before.len() && before[j].0@ == k {
                    let j = choose|j: int| 0 <= j < before.len() && before[j].0@ == k;
                    lemma_lookup_at(before, j);
                    lemma_lookup_at(after, j);
                } else {
                    lemma_lookup_absent(before, k);
                    assert forall|j: int| 0 <= j < after.len() implies after[j].0@ != k by {
                        if j < n {
                            assert(before[j].0@ != k);
                        }
                    }
                    lemma_lookup_absent(after, k);
                }
            }
        }
        self.entries = entries;
    }
}

/// A content-addressed binary asset reference.
#[derive(Debug)]
pub struct AssetRef {
    pub hash: String,
    pub media_type: String,
    pub role: TextureRole,
}

impl Clone for AssetRef {
    fn clone(&self) -> (r: Self)
        ensures
            r == *self,
    {
        AssetRef { hash: self.hash.clone(), media_type: self.media_type.clone(), role: self.role }
    }
}

/// `blake3:` followed by exactly 64 lowercase hexadecimal digits.
pub open spec fn is_blake3_hash_spec(s: Seq<char>) -> bool {
    &&& s.len() == 71
    &&& s.subrange(0, 7) == seq!['b', 'l', 'a', 'k', 'e', '3', ':']
    &&& forall|i: int| 7 <= i < 71 ==> is_lower_hex(#[trigger] s[i])
}

pub fn char_is_lower_hex(c: char) -> (r: bool)
    ensures
        r == is_lower_hex(c),
{
    ('a' <= c && c <= 'f') || ('0' <= c && c <= '9')
}

/// Whether `hash` is a full lowercase `blake3:<64 hex digits>` content hash.
pub fn is_blake3_hash(hash: &str) -> (r: bool)
    ensures
        r == is_blake3_hash_spec(hash@),
{
    let n = hash.unicode_len();
    if n != 71 {
        return false;
    }
    let prefix = ['b', 'l', 'a', 'k', 'e', '3', ':'];
    let mut i: usize = 0;
    while i < 7
        invariant
            n == hash@.len() == 71,
            i <= 7,
            prefix@ == seq!['b', 'l', 'a', 'k', 'e', '3', ':'],
            forall|j: int| 0 <= j < i ==> hash@[j] == prefix@[j],
        decreases 7 - i,
    {
        if hash.get_char(i) != prefix[i] {
            assert(hash@.subrange(0, 7)[i as int] != seq!['b', 'l', 'a', 'k', 'e', '3', ':'][i as int]);
            return false;
        }
        i = i + 1;
    }
    assert(hash@.subrange(0, 7) =~= seq!['b', 'l', 'a', 'k', 'e', '3', ':']);
    while i < 71
        invariant
            n == hash@.len() == 71,
            7 <= i <= 71,
            forall|j: int| 7 <= j < i ==> is_lower_hex(#[trigger] hash@[j]),
        decreases 71 - i,
    {
        if !char_is_lower_hex(hash.get_char(i)) {
            return false;
        }
        i = i + 1;
    }
    true
}

impl AssetRef {
    pub fn new(hash: String, media_type: String, role: TextureRole) -> (r: AssetRef)
        ensures
            r.hash == hash,
            r.media_type == media_type,
            r.role == role,
    {
        AssetRef { hash, media_type, role }
    }

    /// Checks the role, the hash format and the media type, in that order.
    pub fn validate(&self, expected_role: TextureRole) -> (r: Result<(), ModelError>)
        ensures
            r is Ok <==> (self.role == expected_role && is_blake3_hash_spec(self.hash@)
                && !is_blank(self.media_type@)),
            self.role != expected_role ==> r == Err::<(), ModelError>(
                ModelError::AssetRoleMismatch { expected: expected_role, found: self.role },
            ),
            self.role == expected_role && !is_blake3_hash_spec(self.hash@) ==> (r matches Err(
                ModelError::InvalidAssetHash { hash },
            ) && hash == self.hash),
            self.role == expected_role && is_blake3_hash_spec(self.hash@) && is_blank(
                self.media_type@,
            ) ==> (r matches Err(ModelError::InvalidAssetMediaType { hash }) && hash == self.hash),
    {
        if self.role != expected_role {
            return Err(ModelError::AssetRoleMismatch { expected: expected_role, found: self.role });
        }
        if !is_blake3_hash(self.hash.as_str()) {
            return Err(ModelError::InvalidAssetHash { hash: self.hash.clone() });
        }
        if str_is_blank(self.media_type.as_str()) {
            return Err(ModelError::InvalidAssetMediaType { hash: self.hash.clone() });
        }
        Ok(())
    }
}

/// Authored finish for a material.
#[derive(Debug)]
pub enum Appearance {
    SolidColor([u8; 3]),
    Textured { color: [u8; 3], texture: AssetRef, scale: Length },
    DepthMapped { color: [u8; 3], height: AssetRef, scale: Length },
}

impl Clone for Appearance {
    fn clone(&self) -> (r: Self)
        ensures
            r == *self,
    {
        match self {
            Appearance::SolidColor(c) => Appearance::SolidColor(*c),
            Appearance::Textured { color, texture, scale } => Appearance::Textured {
                color: *color,
                texture: texture.clone(),
                scale: *scale,
            },
            Appearance::DepthMapped { color, height, scale } => Appearance::DepthMapped {
                color: *color,
                height: height.clone(),
                scale: *scale,
            },
        }
    }
}

/// Whether an appearance satisfies its validation rules.
pub open spec fn appearance_valid(a: Appearance) -> bool {
    match a {
        Appearance::SolidColor(_) => true,
        Appearance::Textured { texture, scale, .. } => scale.ticks > 0 && texture.role
            == TextureRole::Texture && is_blake3_hash_spec(texture.hash@) && !is_blank(
            texture.media_type@,
        ),
        Appearance::DepthMapped { height, scale, .. } => scale.ticks > 0 && height.role
            == TextureRole::Height && is_blake3_hash_spec(height.hash@) && !is_blank(
            height.media_type@,
        ),
    }
}

/// A positive texture scale.
pub fn validate_asset_scale(scale: Length) -> (r: Result<(), ModelError>)
    ensures
        r is Ok <==> scale.ticks > 0,
        r is Err ==> r == Err::<(), ModelError>(ModelError::InvalidAssetScale),
{
    if scale.ticks > 0 {
        Ok(())
    } else {
        Err(ModelError::InvalidAssetScale)
    }
}

impl Appearance {
    /// A representative color for this appearance.
    pub fn color(&self) -> (r: [u8; 3])
        ensures
            r == match *self {
                Appearance::SolidColor(c) => c,
                Appearance::Textured { color, .. } => color,
                Appearance::DepthMapped { color, .. } => color,
            },
    {
        match self {
            Appearance::SolidColor(c) => *c,
            Appearance::Textured { color, .. } => *color,
            Appearance::DepthMapped { color, .. } => *color,
        }
    }

    pub fn validate(&self) -> (r: Result<(), ModelError>)
        ensures
            r is Ok <==> appearance_valid(*self),
    {
        match self {
            Appearance::SolidColor(_) => Ok(()),
            Appearance::Textured { texture, scale, .. } => {
                validate_asset_scale(*scale)?;
                texture.validate(TextureRole::Texture)
            },
            Appearance::DepthMapped { height, scale, .. } => {
                validate_asset_scale(*scale)?;
                height.validate(TextureRole::Height)
            },
        }
    }
}

/// An open, extensible material definition referenced by stable id.
#[derive(Debug, Clone)]
pub struct Material {
    pub id: ElementId,
    pub name: String,
    pub source: MaterialSource,
    pub appearance: Appearance,
    pub tags: Vec<String>,
    pub properties: PropertyMap,
}

/// The `r_per_inch_milli` property value: its integer value, else 0.
pub open spec fn r_per_inch_spec(m: Material) -> int {
    match m.properties.value_of(seq!['r', '_', 'p', 'e', 'r', '_', 'i', 'n', 'c', 'h', '_', 'm', 'i', 'l', 'l', 'i']) {
        Some(PropertyValue::Int(v)) => v as int,
        _ => 0,
    }
}

/// Milli-R across `thickness_ticks`: `r_per_inch * ticks / 16`, truncated toward zero.
pub open spec fn r_value_spec(r_per_inch: int, thickness_ticks: int) -> int {
    truncating_div(r_per_inch * thickness_ticks, 16)
}

/// The property key of the well-known R-per-inch property.
pub fn r_per_inch_key() -> (r: &'static str)
    ensures
        r@ == seq!['r', '_', 'p', 'e', 'r', '_', 'i', 'n', 'c', 'h', '_', 'm', 'i', 'l', 'l', 'i'],
{
    let k = "r_per_inch_milli";
    proof {
        reveal_strlit("r_per_inch_milli");
    }
    k
}

impl Material {
    /// A project material with a solid-color appearance and no extra properties.
    pub fn solid_color(id: &str, name: &str, color: [u8; 3]) -> (r: Material)
        ensures
            r.id@ == id@,
            r.name@ == name@,
            r.source is Project,
            r.appearance == Appearance::SolidColor(color),
            r.tags@.len() == 0,
            r.properties.is_empty_spec(),
            forall|k: Seq<char>| r.properties.value_of(k) is None,
            r_per_inch_spec(r) == 0,
    {
        Material {
            id: ElementId::from_str(id),
            name: name.to_owned(),
            source: MaterialSource::Project,
            appearance: Appearance::SolidColor(color),
            tags: Vec::new(),
            properties: PropertyMap::new(),
        }
    }

    pub fn with_tags(self, tags: Vec<String>) -> (r: Material)
        ensures
            r.tags == tags,
            r.id == self.id,
            r.name == self.name,
            r.source == self.source,
            r.appearance == self.appearance,
            r.properties == self.properties,
    {
        Material { tags, ..self }
    }

    pub fn with_r_per_inch_milli(self, r_per_inch_milli: i64) -> (r: Material)
        ensures
            r_per_inch_spec(r) == r_per_inch_milli,
            r.id == self.id,
            r.name == self.name,
            r.source == self.source,
            r.appearance == self.appearance,
            r.tags == self.tags,
            forall|k: Seq<char>|
                k != seq!['r', '_', 'p', 'e', 'r', '_', 'i', 'n', 'c', 'h', '_', 'm', 'i', 'l', 'l', 'i']
                    ==> #[trigger] r.properties.value_of(k) == self.properties.value_of(k),
    {
        let mut m = self;
        let key = r_per_inch_key();
        m.properties.insert(key.to_owned(), PropertyValue::Int(r_per_inch_milli));
        m
    }

    pub fn validate(&self) -> (r: Result<(), ModelError>)
        ensures
            r is Ok <==> appearance_valid(self.appearance),
    {
        self.appearance.validate()
    }

    /// The representative color from this material's appearance.
    pub fn color(&self) -> (r: [u8; 3])
        ensures
            r == match self.appearance {
                Appearance::SolidColor(c) => c,
                Appearance::Textured { color, .. } => color,
                Appearance::DepthMapped { color, .. } => color,
            },
    {
        self.appearance.color()
    }

    /// The well-known `r_per_inch_milli` property, or 0 when absent or not an integer.
    pub fn r_per_inch_milli(&self) -> (r: i64)
        ensures
            r == r_per_inch_spec(*self),
    {
        match self.properties.get(r_per_inch_key()) {
            Some(PropertyValue::Int(v)) => *v,
            _ => 0,
        }
    }

    /// This material's R-value in milli-R across `thickness`, by exact integer math.
    pub fn r_value_milli(&self, thickness: Length) -> (r: i64)
        requires
            i64::MIN <= r_per_inch_spec(*self) * thickness.ticks <= i64::MAX,
        ensures
            r == r_value_spec(r_per_inch_spec(*self), thickness.ticks as int),
    {
        let per_inch = self.r_per_inch_milli();
        let product = per_inch * thickness.ticks;
        Length::from_ticks(product).divided_by(16).ticks
    }
}

} // verus!
