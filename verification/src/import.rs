//! Importing materials and construction systems from a versioned library into
//! a project. A library's content is identified by its BLAKE3 hash; imported
//! items get fresh project ids under a prefix derived from the library's
//! coordinate and carry their provenance; the project records one stamp per
//! library version; an import that leaves the project invalid changes nothing.

use vstd::prelude::*;

use crate::element::{contains_id, id_views, lemma_id_views_push, ElementId};
use crate::error::ModelError;
use crate::joins::{decimal, label_count, lemma_label_count_step, numbered, push_decimal};
use crate::library::{Library, LibraryError};
use crate::model::{model_fits, model_sorted, model_valid, no_solved_dimensions, walls_decidable, sorts_to, BuildingModel, LibraryStamp};
use crate::material::{Material, MaterialSource, Provenance};
use crate::system::{ConstructionLayer, ConstructionSystem, FramingSpec};
use crate::order::{key_index, keys_of, position_of, Keyed};
use crate::text::{is_lower_hex, lemma_seq_lt_transitive, lemma_seq_lt_trichotomy, seq_le, seq_lt, str_eq, str_less};

verus! {

// ---------------------------------------------------------------------------
// Content hashes
// ---------------------------------------------------------------------------

/// The name for BLAKE3's digest of `bytes`, as lowercase hexadecimal.
pub uninterp spec fn blake3_hex(bytes: Seq<u8>) -> Seq<char>;

/// `blake3::hash(bytes).to_hex()`: the digest as 64 lowercase hexadecimal
/// digits (the crate's `to_hex` writes each of the 32 digest bytes as two
/// digits from `0123456789abcdef`). Which digits they are is the named function
/// of the bytes; nothing more is stated of it.
#[verifier::external_body]
fn blake3_hex_of(bytes: &[u8]) -> (r: String)
    ensures
        r@ == blake3_hex(bytes@),
        r@.len() == 64,
        forall|i: int| 0 <= i < r@.len() ==> is_lower_hex(#[trigger] r@[i]),
{
    blake3::hash(bytes).to_hex().to_string()
}

/// The content hash of a text: `blake3:` and the digest of its UTF-8 bytes.
pub open spec fn content_hash(text: Seq<char>) -> Seq<char> {
    "blake3:"@ + blake3_hex(vstd::utf8::encode_utf8(text))
}

/// The content hash of `text`.
pub fn hash_text(text: &str) -> (r: String)
    ensures
        r@ == content_hash(text@),
        r@.len() == 71,
{
    let digest = blake3_hex_of(text.as_bytes());
    let mut r = "blake3:".to_owned();
    r.append(digest.as_str());
    proof {
        reveal_strlit("blake3:");
    }
    r
}

/// The content hash of a library: the hash of its saved document text.
pub fn library_content_hash(saved_document: &str) -> (r: String)
    ensures
        r@ == content_hash(saved_document@),
{
    hash_text(saved_document)
}

/// The content hash of a material, from its pretty JSON (written with its
/// source set to the project): the hash of the JSON and a final newline.
pub fn material_content_hash(pretty_json: &str) -> (r: String)
    ensures
        r@ == content_hash(pretty_json@ + "\n"@),
{
    let mut text = pretty_json.to_owned();
    text.append("\n");
    hash_text(text.as_str())
}

/// The content hash of a construction system, from its pretty JSON (written
/// without a source): the hash of the JSON and a final newline.
pub fn system_content_hash(pretty_json: &str) -> (r: String)
    ensures
        r@ == content_hash(pretty_json@ + "\n"@),
{
    let mut text = pretty_json.to_owned();
    text.append("\n");
    hash_text(text.as_str())
}

/// Why a library could not be imported.
#[derive(Debug)]
pub enum LibraryImportError {
    Library(LibraryError),
    Model(ModelError),
    ContentHashMismatch { expected: String, actual: String },
    MaterialNotFound { id: ElementId },
    SystemNotFound { id: ElementId },
    MissingReferencedMaterial { system: ElementId, material: ElementId },
    UnknownBuiltin { id: String },
    InstalledLibraryNotFound { id: String },
    RemoteUnsupported,
    Io { path: String },
}

/// A library with the content hash of its saved document.
#[derive(Debug)]
pub struct LoadedLibrary {
    pub library: Library,
    pub content_hash: String,
}

/// A library's text and, where the locator pins one, the hash it must have.
#[derive(Debug, Clone)]
pub struct LibraryBytes {
    pub source: String,
    pub expected_hash: Option<String>,
}

/// Checks a parsed library against the hash its locator expects: the content
/// hash is that of its saved document; a different expected hash is refused.
pub fn load_verified_library(library: Library, saved_document: &str, expected_hash: &Option<String>) -> (r: Result<
    LoadedLibrary,
    LibraryImportError,
>)
    ensures
        match r {
            Ok(loaded) => loaded.content_hash@ == content_hash(saved_document@) && loaded.library == library && match expected_hash {
                Some(e) => e@ == content_hash(saved_document@),
                None => true,
            },
            Err(e) => {
                &&& expected_hash matches Some(x) && x@ != content_hash(saved_document@)
                &&& e matches LibraryImportError::ContentHashMismatch { expected, actual }
                &&& expected@ == expected_hash->0@
                &&& actual@ == content_hash(saved_document@)
            },
        },
{
    let content_hash = library_content_hash(saved_document);
    match expected_hash {
        Some(expected) => {
            if !str_eq(expected.as_str(), content_hash.as_str()) {
                return Err(LibraryImportError::ContentHashMismatch { expected: expected.clone(), actual: content_hash });
            }
        },
        None => {},
    }
    Ok(LoadedLibrary { library, content_hash })
}

// ---------------------------------------------------------------------------
// Locators
// ---------------------------------------------------------------------------

/// Where a library comes from.
#[derive(Debug, Clone)]
pub enum Locator {
    Builtin { id: String },
    Local { path: String },
    Installed { id: String },
    Remote { url: String, hash: String },
}

/// Looks installed libraries up under a list of root directories.
#[derive(Debug, Clone)]
pub struct LocalSearchPathResolver {
    pub roots: Vec<String>,
}

impl LocalSearchPathResolver {
    pub fn new(roots: Vec<String>) -> (r: LocalSearchPathResolver)
        ensures
            r.roots == roots,
    {
        LocalSearchPathResolver { roots }
    }
}

/// `s` ends with `suffix`.
pub open spec fn ends_with(s: Seq<char>, suffix: Seq<char>) -> bool {
    s.len() >= suffix.len() && s.subrange(s.len() - suffix.len(), s.len() as int) == suffix
}

/// The file name, under a search root, of the installed library `id`: the id
/// itself when it already ends in `.framerlib`, else the id with that extension.
pub fn installed_file_name(id: &str) -> (r: String)
    ensures
        r@ == if ends_with(id@, ".framerlib"@) {
            id@
        } else {
            id@ + ".framerlib"@
        },
{
    let ext = ".framerlib";
    proof {
        reveal_strlit(".framerlib");
    }
    let n = id.unicode_len();
    let m = ext.unicode_len();
    let mut ends = n >= m;
    let mut i: usize = 0;
    while ends && i < m
        invariant
            n == id@.len(),
            m == ext@.len(),
            i <= m,
            ends ==> n >= m,
            ends ==> forall|k: int| 0 <= k < i ==> id@[n - m + k] == ext@[k],
            !ends ==> !ends_with(id@, ext@),
        decreases m - i,
    {
        if id.get_char(n - m + i) != ext.get_char(i) {
            ends = false;
        }
        i = i + 1;
    }
    proof {
        if ends {
            assert(id@.subrange(n - m, n as int) =~= ext@);
        }
    }
    let mut r = id.to_owned();
    if !ends {
        r.append(ext);
    }
    r
}

// ---------------------------------------------------------------------------
// Project ids for imported items
// ---------------------------------------------------------------------------

/// `std::string::String::push`: appends one character.
#[verifier::external_body]
pub(crate) fn push_char(s: &mut String, c: char)
    ensures
        final(s)@ == old(s)@.push(c),
{
    s.push(c)
}

/// An ASCII letter or digit.
pub open spec fn is_ascii_alnum(c: char) -> bool {
    ('0' <= c && c <= '9') || ('a' <= c && c <= 'z') || ('A' <= c && c <= 'Z')
}

/// A coordinate character in an id: ASCII letters lower-cased, digits kept,
/// anything else a dash.
pub open spec fn slug_char(c: char) -> char {
    if 'A' <= c && c <= 'Z' {
        ((c as int) + 32) as char
    } else if is_ascii_alnum(c) {
        c
    } else {
        '-'
    }
}

/// Runs of dashes collapsed into one, none at either end.
pub open spec fn collapse_dashes(s: Seq<char>) -> Seq<char>
    decreases s.len(),
{
    if s.len() == 0 {
        Seq::empty()
    } else {
        let r = collapse_dashes(s.drop_last());
        let c = s.last();
        if c == '-' {
            r
        } else if s.len() >= 2 && s[s.len() - 2] == '-' && r.len() > 0 {
            r.push('-').push(c)
        } else {
            r.push(c)
        }
    }
}

/// The coordinate without its `framer-lib://` scheme, when it has one.
pub open spec fn coordinate_body(coordinate: Seq<char>) -> Seq<char> {
    let scheme = "framer-lib://"@;
    if coordinate.len() >= scheme.len() && coordinate.subrange(0, scheme.len() as int) == scheme {
        coordinate.subrange(scheme.len() as int, coordinate.len() as int)
    } else {
        coordinate
    }
}

/// The id prefix of a library: its coordinate body as a dash-separated slug,
/// or `library` when nothing is left.
pub open spec fn id_prefix(coordinate: Seq<char>) -> Seq<char> {
    let c = collapse_dashes(coordinate_body(coordinate).map_values(|ch: char| slug_char(ch)));
    if c.len() == 0 {
        "library"@
    } else {
        c
    }
}

fn slug_of(c: char) -> (r: char)
    ensures
        r == slug_char(c),
{
    if 'A' <= c && c <= 'Z' {
        let b = c as u8;
        let r = (b + 32) as char;
        assert(b as int == c as int);
        assert(r == ((c as int) + 32) as char);
        r
    } else if ('0' <= c && c <= '9') || ('a' <= c && c <= 'z') {
        c
    } else {
        '-'
    }
}

/// The id prefix of a library, from its coordinate.
pub fn library_id_prefix(library: &Library) -> (r: String)
    ensures
        r@ == id_prefix(library.coordinate@),
{
    let coordinate = library.coordinate.as_str();
    let scheme = "framer-lib://";
    proof {
        reveal_strlit("framer-lib://");
    }
    let n = coordinate.unicode_len();
    let m = scheme.unicode_len();
    let mut has_scheme = n >= m;
    let mut i: usize = 0;
    while has_scheme && i < m
        invariant
            n == coordinate@.len(),
            m == scheme@.len(),
            i <= m,
            has_scheme ==> n >= m,
            has_scheme ==> forall|k: int| 0 <= k < i ==> coordinate@[k] == scheme@[k],
            !has_scheme ==> !(coordinate@.len() >= scheme@.len() && coordinate@.subrange(0, scheme@.len() as int)
                == scheme@),
        decreases m - i,
    {
        if coordinate.get_char(i) != scheme.get_char(i) {
            proof {
                if n >= m {
                    assert(coordinate@.subrange(0, m as int)[i as int] == coordinate@[i as int]);
                }
            }
            has_scheme = false;
        }
        i = i + 1;
    }
    let start: usize = if has_scheme {
        proof {
            assert(coordinate@.subrange(0, m as int) =~= scheme@);
        }
        m
    } else {
        0
    };
    let ghost body = coordinate_body(coordinate@);
    assert(body =~= coordinate@.subrange(start as int, n as int));
    let ghost slug = body.map_values(|ch: char| slug_char(ch));
    let mut out = String::new();
    let mut previous_dash = false;
    let mut j: usize = start;
    while j < n
        invariant
            start <= j <= n,
            n == coordinate@.len(),
            body == coordinate@.subrange(start as int, n as int),
            slug == body.map_values(|ch: char| slug_char(ch)),
            out@ == collapse_dashes(slug.take(j - start)),
            previous_dash == (j > start && slug[j - start - 1] == '-'),
        decreases n - j,
    {
        let c = slug_of(coordinate.get_char(j));
        let ghost k = (j - start) as int;
        proof {
            assert(slug[k] == c);
            assert(slug.take(k + 1).drop_last() =~= slug.take(k));
            assert(slug.take(k + 1).last() == c);
        }
        if c == '-' {
            previous_dash = true;
        } else {
            if previous_dash && out.unicode_len() > 0 {
                push_char(&mut out, '-');
            }
            push_char(&mut out, c);
            previous_dash = false;
            proof {
                if k >= 1 {
                    assert(slug.take(k + 1)[k - 1] == slug[k - 1]);
                }
            }
        }
        j = j + 1;
    }
    proof {
        assert(slug.take(n - start) =~= slug);
    }
    if out.unicode_len() == 0 {
        "library".to_owned()
    } else {
        out
    }
}

/// `id` is the fresh id for `source` under `prefix`, against the ids in
/// `used`: `prefix-source` when free, else `prefix-source-N` for the least
/// free `N >= 2`.
pub open spec fn minted(prefix: Seq<char>, source: Seq<char>, used: Seq<Seq<char>>, id: Seq<char>) -> bool {
    let base = prefix + "-"@ + source;
    if !used.contains(base) {
        id == base
    } else {
        exists|n: nat|
            {
                &&& n >= 2
                &&& id == #[trigger] numbered(base + "-"@, n)
                &&& !used.contains(id)
                &&& forall|m: nat| 2 <= m < n ==> used.contains(#[trigger] numbered(base + "-"@, m))
            }
    }
}

/// Mints a fresh project id for `source_id` under `library_prefix` and marks
/// it used.
pub fn mint_project_id(library_prefix: &str, source_id: &ElementId, used: &mut Vec<ElementId>) -> (r: ElementId)
    requires
        old(used)@.len() + 3 <= usize::MAX,
    ensures
        minted(library_prefix@, source_id@, id_views(old(used)@), r@),
        final(used)@ == old(used)@.push(r),
{
    let mut base = library_prefix.to_owned();
    base.append("-");
    base.append(source_id.as_str());
    let base_id = ElementId::new(base);
    if !contains_id(used, &base_id) {
        let r = base_id.clone();
        used.push(base_id);
        return r;
    }
    let ghost ids = id_views(used@);
    let ghost stem = base_id@ + "-"@;
    let mut suffix: usize = 2;
    proof {
        lemma_label_count_step(stem, ids, 2);
    }
    loop
        invariant
            2 <= suffix,
            ids == id_views(used@),
            used@ == old(used)@,
            ids.len() == used@.len(),
            used@.len() + 3 <= usize::MAX,
            ids.contains(base_id@),
            stem == base_id@ + "-"@,
            base_id@ == library_prefix@ + "-"@ + source_id@,
            label_count(stem, ids, suffix as nat) + (suffix - 2) <= ids.len(),
            forall|m: nat| 2 <= m < suffix ==> ids.contains(#[trigger] numbered(stem, m)),
        decreases label_count(stem, ids, suffix as nat),
    {
        let mut text = base_id.as_str().to_owned();
        text.append("-");
        push_decimal(&mut text, suffix as u64);
        let candidate = ElementId::new(text);
        assert(candidate@ == numbered(stem, suffix as nat));
        if !contains_id(used, &candidate) {
            let r = candidate.clone();
            used.push(candidate);
            assert(minted(library_prefix@, source_id@, ids, r@));
            return r;
        }
        proof {
            lemma_label_count_step(stem, ids, suffix as nat);
        }
        suffix = suffix + 1;
    }
}


// ---------------------------------------------------------------------------
// The project's ids and library stamps
// ---------------------------------------------------------------------------

/// The ids of the openings of the first `k` walls.
pub open spec fn opening_ids(walls: Seq<crate::wall::Wall>, k: int) -> Seq<Seq<char>>
    decreases k,
{
    if k <= 0 {
        Seq::empty()
    } else {
        opening_ids(walls, k - 1) + keys_of(walls[k - 1].openings@)
    }
}

/// The ids of the dimensions of the first `k` walls.
pub open spec fn dimension_ids(walls: Seq<crate::wall::Wall>, k: int) -> Seq<Seq<char>>
    decreases k,
{
    if k <= 0 {
        Seq::empty()
    } else {
        dimension_ids(walls, k - 1) + keys_of(walls[k - 1].dimensions@)
    }
}

/// The ids an import must not reuse: levels, materials, systems, walls,
/// their openings and dimensions, joins and rooms.
pub open spec fn project_ids(m: BuildingModel) -> Seq<Seq<char>> {
    keys_of(m.levels@) + keys_of(m.materials@) + keys_of(m.systems@) + keys_of(m.walls@) + opening_ids(
        m.walls@,
        m.walls@.len() as int,
    ) + dimension_ids(m.walls@, m.walls@.len() as int) + keys_of(m.wall_joins@) + keys_of(m.rooms@)
}

fn push_keys<T: Keyed>(out: &mut Vec<ElementId>, items: &Vec<T>)
    ensures
        id_views(final(out)@) == id_views(old(out)@) + keys_of(items@),
{
    let ghost start = id_views(out@);
    let mut i: usize = 0;
    while i < items.len()
        invariant
            i <= items@.len(),
            id_views(out@) == start + keys_of(items@).take(i as int),
        decreases items@.len() - i,
    {
        let ghost before = out@;
        let id = ElementId::from_str(items[i].key_str());
        out.push(id);
        proof {
            lemma_id_views_push(before, id);
            assert(keys_of(items@).take(i as int + 1) =~= keys_of(items@).take(i as int).push(items@[i as int].key()));
            assert(start + keys_of(items@).take(i as int + 1) =~= (start + keys_of(items@).take(i as int)).push(id@));
        }
        i = i + 1;
    }
    proof {
        assert(keys_of(items@).take(items@.len() as int) =~= keys_of(items@));
    }
}

/// The ids of the project that an import must not reuse.
fn collect_project_ids(project: &BuildingModel) -> (r: Vec<ElementId>)
    ensures
        id_views(r@) == project_ids(*project),
{
    let mut ids: Vec<ElementId> = Vec::new();
    push_keys(&mut ids, &project.levels);
    push_keys(&mut ids, &project.materials);
    push_keys(&mut ids, &project.systems);
    push_keys(&mut ids, &project.walls);
    let ghost before_openings = id_views(ids@);
    let mut w: usize = 0;
    while w < project.walls.len()
        invariant
            w <= project.walls@.len(),
            id_views(ids@) == before_openings + opening_ids(project.walls@, w as int),
        decreases project.walls@.len() - w,
    {
        push_keys(&mut ids, &project.walls[w].openings);
        proof {
            assert(before_openings + opening_ids(project.walls@, w as int + 1) =~= before_openings + opening_ids(
                project.walls@,
                w as int,
            ) + keys_of(project.walls@[w as int].openings@));
        }
        w = w + 1;
    }
    let ghost before_dimensions = id_views(ids@);
    let mut w: usize = 0;
    while w < project.walls.len()
        invariant
            w <= project.walls@.len(),
            id_views(ids@) == before_dimensions + dimension_ids(project.walls@, w as int),
        decreases project.walls@.len() - w,
    {
        push_keys(&mut ids, &project.walls[w].dimensions);
        proof {
            assert(before_dimensions + dimension_ids(project.walls@, w as int + 1) =~= before_dimensions + dimension_ids(
                project.walls@,
                w as int,
            ) + keys_of(project.walls@[w as int].dimensions@));
        }
        w = w + 1;
    }
    push_keys(&mut ids, &project.wall_joins);
    push_keys(&mut ids, &project.rooms);
    ids
}

/// `s` records library `lib` with content hash `hash`.
pub open spec fn stamp_for(s: LibraryStamp, lib: Library, hash: Seq<char>) -> bool {
    &&& s.uid == lib.uid
    &&& s.version_id == lib.version_id
    &&& s.content_hash@ == hash
    &&& s.coordinate == lib.coordinate
    &&& s.version == lib.version
}

/// Some stamp records the library's uid and version.
pub open spec fn has_stamp(stamps: Seq<LibraryStamp>, lib: Library) -> bool {
    exists|i: int| 0 <= i < stamps.len() && stamps[i].uid@ == lib.uid@ && stamps[i].version_id@ == lib.version_id@
}

/// Records the library version in the project unless it already is; whether
/// a stamp was added.
fn ensure_library_stamp(project: &mut BuildingModel, library: &Library, content_hash: &str) -> (added: bool)
    ensures
        added <==> !has_stamp(old(project).libraries@, *library),
        added ==> final(project).libraries@.len() == old(project).libraries@.len() + 1 && final(project).libraries@.drop_last()
            == old(project).libraries@ && stamp_for(final(project).libraries@.last(), *library, content_hash@),
        !added ==> final(project).libraries == old(project).libraries,
        *final(project) == (BuildingModel { libraries: final(project).libraries, ..*old(project) }),
{
    let mut i: usize = 0;
    while i < project.libraries.len()
        invariant
            i <= project.libraries@.len(),
            forall|k: int| 0 <= k < i ==> !(project.libraries@[k].uid@ == library.uid@ && project.libraries@[k].version_id@
                == library.version_id@),
        decreases project.libraries@.len() - i,
    {
        if str_eq(project.libraries[i].uid.as_str(), library.uid.as_str()) && str_eq(
            project.libraries[i].version_id.as_str(),
            library.version_id.as_str(),
        ) {
            return false;
        }
        i = i + 1;
    }
    let ghost before = project.libraries@;
    project.libraries.push(
        LibraryStamp {
            uid: library.uid.clone(),
            version_id: library.version_id.clone(),
            content_hash: content_hash.to_owned(),
            coordinate: library.coordinate.clone(),
            version: library.version.clone(),
        },
    );
    assert(project.libraries@.drop_last() =~= before);
    true
}

// ---------------------------------------------------------------------------
// Vendoring library items
// ---------------------------------------------------------------------------

/// The provenance of a library item with content hash `hash`.
pub open spec fn provenance_of(p: Provenance, lib: Library, source: ElementId, hash: Seq<char>) -> bool {
    p.library_uid == lib.uid && p.version_id == lib.version_id && p.source_id == source && p.content_hash@ == hash
}

/// `m` is library material `src` vendored into the project as `id`.
pub open spec fn vendored_material(lib: Library, src: Material, m: Material, id: Seq<char>, hash: Seq<char>) -> bool {
    &&& m.id@ == id
    &&& m.name == src.name
    &&& m.appearance == src.appearance
    &&& m.tags@ == src.tags@
    &&& forall|k: Seq<char>| #[trigger] m.properties.value_of(k) == src.properties.value_of(k)
    &&& m.source matches MaterialSource::Library(p) && provenance_of(p, lib, src.id, hash)
}

fn copy_strings(v: &Vec<String>) -> (r: Vec<String>)
    ensures
        r@ == v@,
{
    let mut out: Vec<String> = Vec::new();
    let mut i: usize = 0;
    while i < v.len()
        invariant
            i <= v@.len(),
            out@ == v@.subrange(0, i as int),
        decreases v@.len() - i,
    {
        out.push(v[i].clone());
        i = i + 1;
    }
    assert(out@ =~= v@);
    out
}

fn provenance(library: &Library, source_id: &ElementId, content_hash: String) -> (r: Provenance)
    ensures
        provenance_of(r, *library, *source_id, content_hash@),
{
    Provenance {
        library_uid: library.uid.clone(),
        version_id: library.version_id.clone(),
        source_id: source_id.clone(),
        content_hash,
    }
}

/// A library material vendored into the project under `remapped`.
fn vendor_material(library: &Library, source: &Material, remapped: ElementId, content_hash: String) -> (r: Material)
    ensures
        vendored_material(*library, *source, r, remapped@, content_hash@),
{
    Material {
        id: remapped,
        name: source.name.clone(),
        source: MaterialSource::Library(provenance(library, &source.id, content_hash)),
        appearance: source.appearance.clone(),
        tags: copy_strings(&source.tags),
        properties: source.properties.clone(),
    }
}

/// The project id that `remap` gives library material `k`.
pub open spec fn remapped_id(remap: Seq<(ElementId, ElementId)>, k: Seq<char>) -> Option<Seq<char>>
    decreases remap.len(),
{
    if remap.len() == 0 {
        None
    } else if remap[0].0@ == k {
        Some(remap[0].1@)
    } else {
        remapped_id(remap.drop_first(), k)
    }
}

/// `after` is layer `before` with its material and cavity material remapped.
pub open spec fn layer_remapped(before: ConstructionLayer, after: ConstructionLayer, remap: Seq<(ElementId, ElementId)>) -> bool {
    &&& after.function == before.function
    &&& after.thickness == before.thickness
    &&& remapped_id(remap, before.material@) == Some(after.material@)
    &&& match before.framing {
        None => after.framing is None,
        Some(f) => after.framing matches Some(g) && g.member == f.member && g.spacing == f.spacing && g.pattern == f.pattern
            && g.member_family == f.member_family && match f.cavity_material {
            None => g.cavity_material is None,
            Some(c) => g.cavity_material matches Some(d) && remapped_id(remap, c@) == Some(d@),
        },
    }
}

/// The library materials a layer references: its material and cavity material.
pub open spec fn layer_references(l: ConstructionLayer, k: Seq<char>) -> bool {
    l.material@ == k || (l.framing matches Some(f) && f.cavity_material matches Some(c) && c@ == k)
}

/// A system references material `k` in one of its layers.
pub open spec fn system_references(s: ConstructionSystem, k: Seq<char>) -> bool {
    exists|i: int| 0 <= i < s.layers@.len() && layer_references(#[trigger] s.layers@[i], k)
}

/// `r` is library system `src` vendored into the project as `id`, its
/// layers' materials remapped.
pub open spec fn vendored_system(
    lib: Library,
    src: ConstructionSystem,
    r: ConstructionSystem,
    id: Seq<char>,
    remap: Seq<(ElementId, ElementId)>,
    hash: Seq<char>,
) -> bool {
    &&& r.id@ == id
    &&& r.name == src.name
    &&& r.kind == src.kind
    &&& r.source matches Some(p) && provenance_of(p, lib, src.id, hash)
    &&& r.layers@.len() == src.layers@.len()
    &&& forall|i: int| 0 <= i < src.layers@.len() ==> layer_remapped(#[trigger] src.layers@[i], r.layers@[i], remap)
}

fn lookup_remap(remap: &Vec<(ElementId, ElementId)>, k: &ElementId) -> (r: Option<ElementId>)
    ensures
        match r {
            Some(v) => remapped_id(remap@, k@) == Some(v@),
            None => remapped_id(remap@, k@) is None,
        },
{
    let mut i: usize = 0;
    assert(remap@.subrange(0, remap@.len() as int) =~= remap@);
    while i < remap.len()
        invariant
            i <= remap@.len(),
            remapped_id(remap@, k@) == remapped_id(remap@.subrange(i as int, remap@.len() as int), k@),
        decreases remap@.len() - i,
    {
        let ghost rest = remap@.subrange(i as int, remap@.len() as int);
        assert(rest.drop_first() =~= remap@.subrange(i as int + 1, remap@.len() as int));
        if remap[i].0 == *k {
            return Some(remap[i].1.clone());
        }
        i = i + 1;
    }
    None
}

/// A library system vendored into the project under `remapped`, its layers'
/// materials remapped; a layer material that the remap lacks is refused.
fn vendor_system(
    library: &Library,
    source: &ConstructionSystem,
    remapped: ElementId,
    material_remap: &Vec<(ElementId, ElementId)>,
    content_hash: String,
) -> (r: Result<ConstructionSystem, LibraryImportError>)
    ensures
        match r {
            Ok(sys) => vendored_system(*library, *source, sys, remapped@, material_remap@, content_hash@),
            Err(e) => e matches LibraryImportError::MissingReferencedMaterial { system, material } && system@ == source.id@
                && system_references(*source, material@) && remapped_id(material_remap@, material@) is None,
        },
        (forall|k: Seq<char>| system_references(*source, k) ==> remapped_id(material_remap@, k) is Some) ==> r is Ok,
{
    let mut layers: Vec<ConstructionLayer> = Vec::new();
    let mut i: usize = 0;
    while i < source.layers.len()
        invariant
            i <= source.layers@.len(),
            layers@.len() == i,
            forall|q: int| 0 <= q < i ==> layer_remapped(#[trigger] source.layers@[q], layers@[q], material_remap@),
        decreases source.layers@.len() - i,
    {
        let layer = &source.layers[i];
        assert(layer_references(source.layers@[i as int], layer.material@));
        let material = match lookup_remap(material_remap, &layer.material) {
            Some(m) => m,
            None => {
                assert(system_references(*source, layer.material@));
                return Err(
                    LibraryImportError::MissingReferencedMaterial { system: source.id.clone(), material: layer.material.clone() },
                );
            },
        };
        let framing = match &layer.framing {
            None => None,
            Some(f) => {
                let cavity = match &f.cavity_material {
                    None => None,
                    Some(c) => {
                        assert(layer_references(source.layers@[i as int], c@));
                        match lookup_remap(material_remap, c) {
                            Some(m) => Some(m),
                            None => {
                                assert(system_references(*source, c@));
                                return Err(
                                    LibraryImportError::MissingReferencedMaterial { system: source.id.clone(), material: c.clone() },
                                );
                            },
                        }
                    },
                };
                Some(
                    FramingSpec {
                        member: f.member,
                        spacing: f.spacing,
                        pattern: f.pattern,
                        member_family: f.member_family,
                        cavity_material: cavity,
                    },
                )
            },
        };
        layers.push(ConstructionLayer { function: layer.function, material, thickness: layer.thickness, framing });
        i = i + 1;
    }
    Ok(
        ConstructionSystem {
            id: remapped,
            name: source.name.clone(),
            kind: source.kind,
            source: Some(provenance(library, &source.id, content_hash)),
            layers,
        },
    )
}

// ---------------------------------------------------------------------------
// Imports
// ---------------------------------------------------------------------------

/// An item of a library to import.
#[derive(Debug, Clone)]
pub enum LibraryItem {
    Material(ElementId),
    System(ElementId),
}

/// The project ids that an import gave the imported materials and system.
#[derive(Debug)]
pub struct ImportResult {
    pub materials: Vec<ElementId>,
    pub system: Option<ElementId>,
}

/// The content hash listed for library item `k`.
pub open spec fn hash_for(hashes: Seq<(ElementId, String)>, k: Seq<char>) -> Option<Seq<char>>
    decreases hashes.len(),
{
    if hashes.len() == 0 {
        None
    } else if hashes[0].0@ == k {
        Some(hashes[0].1@)
    } else {
        hash_for(hashes.drop_first(), k)
    }
}

/// Every material and system of the library has a listed content hash.
pub open spec fn hashes_cover(lib: Library, hashes: Seq<(ElementId, String)>) -> bool {
    &&& forall|i: int| 0 <= i < lib.materials@.len() ==> hash_for(hashes, (#[trigger] lib.materials@[i]).id@) is Some
    &&& forall|i: int| 0 <= i < lib.systems@.len() ==> hash_for(hashes, (#[trigger] lib.systems@[i]).id@) is Some
}

fn lookup_hash(hashes: &Vec<(ElementId, String)>, k: &ElementId) -> (r: String)
    requires
        hash_for(hashes@, k@) is Some,
    ensures
        hash_for(hashes@, k@) == Some(r@),
{
    let mut i: usize = 0;
    assert(hashes@.subrange(0, hashes@.len() as int) =~= hashes@);
    while i < hashes.len()
        invariant
            i <= hashes@.len(),
            hash_for(hashes@, k@) == hash_for(hashes@.subrange(i as int, hashes@.len() as int), k@),
            hash_for(hashes@, k@) is Some,
        decreases hashes@.len() - i,
    {
        let ghost rest = hashes@.subrange(i as int, hashes@.len() as int);
        assert(rest.drop_first() =~= hashes@.subrange(i as int + 1, hashes@.len() as int));
        if hashes[i].0 == *k {
            return hashes[i].1.clone();
        }
        i = i + 1;
    }
    assert(hashes@.subrange(i as int, hashes@.len() as int) =~= Seq::<(ElementId, String)>::empty());
    String::new()
}

/// Nothing of the project changed but by content: its materials and stamps
/// hold what they held.
pub open spec fn unchanged(a: BuildingModel, b: BuildingModel) -> bool {
    &&& b.materials@ == a.materials@
    &&& b.systems@ == a.systems@
    &&& b.libraries@ == a.libraries@
    &&& b == (BuildingModel { materials: b.materials, systems: b.systems, libraries: b.libraries, ..a })
}

/// The stamps after an import: the library's stamp added unless present.
pub open spec fn stamped(before: Seq<LibraryStamp>, after: Seq<LibraryStamp>, lib: Library, hash: Seq<char>) -> bool {
    if has_stamp(before, lib) {
        after == before
    } else {
        after.len() == before.len() + 1 && after.drop_last() == before && stamp_for(after.last(), lib, hash)
    }
}

/// `p` is the project `a` with the library's stamp (added unless present) and
/// the materials `mats` and systems `syss` appended, and nothing else changed.
pub open spec fn staged_with(
    a: BuildingModel,
    p: BuildingModel,
    lib: Library,
    hash: Seq<char>,
    mats: Seq<Material>,
    syss: Seq<ConstructionSystem>,
) -> bool {
    &&& p.materials@ == a.materials@ + mats
    &&& p.systems@ == a.systems@ + syss
    &&& stamped(a.libraries@, p.libraries@, lib, hash)
    &&& p == (BuildingModel { materials: p.materials, systems: p.systems, libraries: p.libraries, ..a })
}

/// The project `import_material` checks before committing: the old project with
/// the stamp and the vendored copy of the library material `source` under its
/// freshly minted id.
pub open spec fn material_staged(
    a: BuildingModel,
    p: BuildingModel,
    lib: Library,
    content_hash: Seq<char>,
    source: Seq<char>,
    hashes: Seq<(ElementId, String)>,
) -> bool {
    let src = lib.materials@[key_index(lib.materials@, source)];
    exists|id: Seq<char>, m: Material|
        #![trigger vendored_material(lib, src, m, id, hash_for(hashes, src.id@)->0)]
        minted(id_prefix(lib.coordinate@), src.id@, project_ids(a), id) && vendored_material(
            lib,
            src,
            m,
            id,
            hash_for(hashes, src.id@)->0,
        ) && staged_with(a, p, lib, content_hash, seq![m], Seq::empty())
}

/// The project `import_system` checks before committing: the old project with
/// the stamp, the vendored copies of the materials the library system `source`
/// references, and the vendored system, all under freshly minted ids.
pub open spec fn system_staged(
    a: BuildingModel,
    p: BuildingModel,
    lib: Library,
    content_hash: Seq<char>,
    source: Seq<char>,
    hashes: Seq<(ElementId, String)>,
) -> bool {
    let src = lib.systems@[key_index(lib.systems@, source)];
    exists|
        refs: Seq<Seq<char>>,
        ids: Seq<Seq<char>>,
        sid: Seq<char>,
        mats: Seq<Material>,
        sys: ConstructionSystem,
        remap: Seq<(ElementId, ElementId)>,
    |
        #![trigger system_imported(lib, src, hashes, project_ids(a), refs, ids, sid, mats, sys, remap)]
        system_imported(lib, src, hashes, project_ids(a), refs, ids, sid, mats, sys, remap) && staged_with(
            a,
            p,
            lib,
            content_hash,
            mats,
            seq![sys],
        )
}

/// The stamps after an import, in the project's sorted order: those `stamped`
/// gives, rearranged.
pub open spec fn stamped_in_order(before: Seq<LibraryStamp>, after: Seq<LibraryStamp>, lib: Library, hash: Seq<char>) -> bool {
    exists|s: Seq<LibraryStamp>| #[trigger] stamped(before, s, lib, hash) && after.to_multiset() == s.to_multiset()
}

/// Rearranged stamps still hold the library's stamp.
proof fn lemma_has_stamp_rearranged(s: Seq<LibraryStamp>, t: Seq<LibraryStamp>, lib: Library)
    requires
        has_stamp(s, lib),
        s.to_multiset() == t.to_multiset(),
    ensures
        has_stamp(t, lib),
{
    broadcast use vstd::seq_lib::group_to_multiset_ensures;
    let i = choose|i: int| 0 <= i < s.len() && s[i].uid@ == lib.uid@ && s[i].version_id@ == lib.version_id@;
    s.to_multiset_ensures();
    t.to_multiset_ensures();
    assert(s.contains(s[i]));
    assert(s.to_multiset().count(s[i]) > 0);
    assert(t.contains(s[i]));
    let j = choose|j: int| 0 <= j < t.len() && t[j] == s[i];
    assert(t[j].uid@ == lib.uid@ && t[j].version_id@ == lib.version_id@);
}

/// Imports one library material as a new project material with a fresh id
/// and its provenance, recording the library version. Nothing changes when
/// the material is unknown or the project would not validate.
#[verifier::spinoff_prover]
#[verifier::rlimit(40)]
pub fn import_material(
    project: &mut BuildingModel,
    library: &Library,
    library_content_hash: &str,
    source_id: &ElementId,
    item_hashes: &Vec<(ElementId, String)>,
) -> (r: Result<ImportResult, LibraryImportError>)
    requires
        model_fits(*old(project)),
        hashes_cover(*library, item_hashes@),
        project_ids(*old(project)).len() + 3 <= usize::MAX,
    ensures
        (key_index(library.materials@, source_id@) < 0) <==> (r matches Err(LibraryImportError::MaterialNotFound { .. })),
        r matches Err(LibraryImportError::MaterialNotFound { id }) ==> id@ == source_id@,
        r is Err ==> unchanged(*old(project), *final(project)),
        r is Err ==> (r matches Err(LibraryImportError::MaterialNotFound { .. })) || (r matches Err(
            LibraryImportError::Model(_),
        )),
        r matches Err(LibraryImportError::Model(_)) ==> exists|p: BuildingModel|
            #[trigger] material_staged(*old(project), p, *library, library_content_hash@, source_id@, item_hashes@) && !(
            model_valid(p) && (no_solved_dimensions(p) || walls_decidable(p))),
        key_index(library.materials@, source_id@) >= 0 && (forall|p: BuildingModel|
            #[trigger] material_staged(*old(project), p, *library, library_content_hash@, source_id@, item_hashes@)
                ==> model_valid(p) && (no_solved_dimensions(p) || walls_decidable(p))) ==> r is Ok,
        r matches Ok(res) ==> {
            let src = library.materials@[key_index(library.materials@, source_id@)];
            &&& res.system is None
            &&& res.materials@.len() == 1
            &&& minted(id_prefix(library.coordinate@), src.id@, project_ids(*old(project)), res.materials@[0]@)
            &&& exists|m: Material|
                {
                    &&& vendored_material(*library, src, m, res.materials@[0]@, hash_for(item_hashes@, src.id@)->0)
                    &&& #[trigger] final(project).materials@.to_multiset() == old(project).materials@.push(m).to_multiset()
                }
            &&& final(project).systems@.to_multiset() == old(project).systems@.to_multiset()
            &&& stamped_in_order(old(project).libraries@, final(project).libraries@, *library, library_content_hash@)
            &&& model_sorted(*final(project))
        },
        r is Ok ==> exists|p: BuildingModel|
            #[trigger] material_staged(*old(project), p, *library, library_content_hash@, source_id@, item_hashes@)
                && model_valid(p) && sorts_to(p, *final(project)),
{
    let index = match position_of(&library.materials, source_id.as_str()) {
        Some(i) => i,
        None => {
            return Err(LibraryImportError::MaterialNotFound { id: source_id.clone() });
        },
    };
    let source = &library.materials[index];
    let prefix = library_id_prefix(library);
    let mut used = collect_project_ids(project);
    let remapped = mint_project_id(prefix.as_str(), &source.id, &mut used);
    assert(hash_for(item_hashes@, library.materials@[index as int].id@) is Some);
    let hash = lookup_hash(item_hashes, &source.id);
    let material = vendor_material(library, source, remapped.clone(), hash);
    let ghost m = material;
    let ghost before = *project;
    let added = ensure_library_stamp(project, library, library_content_hash);
    project.materials.push(material);
    let ghost staged = *project;
    proof {
        let src = library.materials@[key_index(library.materials@, source_id@)];
        assert(staged.materials@ =~= old(project).materials@ + seq![m]);
        assert(staged.systems@ =~= old(project).systems@ + Seq::<ConstructionSystem>::empty());
        assert(staged_with(*old(project), staged, *library, library_content_hash@, seq![m], Seq::empty()));
        assert(vendored_material(*library, src, m, remapped@, hash_for(item_hashes@, src.id@)->0));
        assert(material_staged(*old(project), staged, *library, library_content_hash@, source_id@, item_hashes@));
    }
    match project.validate() {
        Ok(()) => {
            project.sort_deterministically();
            proof {
                assert(model_valid(staged) && sorts_to(staged, *project));
            }
            let mut ids: Vec<ElementId> = Vec::new();
            ids.push(remapped);
            proof {
                assert(staged.materials@ == before.materials@.push(m));
                assert(before.materials@ == old(project).materials@);
                assert(vendored_material(
                    *library,
                    library.materials@[key_index(library.materials@, source_id@)],
                    m,
                    ids@[0]@,
                    hash_for(item_hashes@, library.materials@[key_index(library.materials@, source_id@)].id@)->0,
                ));
                assert(project.materials@.to_multiset() == old(project).materials@.push(m).to_multiset());
                assert(minted(id_prefix(library.coordinate@), library.materials@[key_index(library.materials@, source_id@)].id@, project_ids(*old(project)), ids@[0]@));
                assert(project.systems@.to_multiset() == old(project).systems@.to_multiset());
                assert(stamped(old(project).libraries@, staged.libraries@, *library, library_content_hash@));
                assert(stamped_in_order(old(project).libraries@, project.libraries@, *library, library_content_hash@));
                assert(model_sorted(*project));
            }
            Ok(ImportResult { materials: ids, system: None })
        },
        Err(e) => {
            project.materials.pop();
            if added {
                project.libraries.pop();
            }
            proof {
                assert(project.materials@ =~= before.materials@);
                assert(project.libraries@ =~= before.libraries@);
            }
            Err(LibraryImportError::Model(e))
        },
    }
}

/// The position of the last library material with id `k`, or -1.
pub open spec fn last_material_index(s: Seq<Material>, k: Seq<char>) -> int
    decreases s.len(),
{
    if s.len() == 0 {
        -1
    } else if s.last().id@ == k {
        s.len() - 1
    } else {
        last_material_index(s.drop_last(), k)
    }
}

proof fn lemma_last_material_index(s: Seq<Material>, k: Seq<char>)
    ensures
        last_material_index(s, k) < s.len(),
        last_material_index(s, k) >= 0 ==> s[last_material_index(s, k)].id@ == k,
    decreases s.len(),
{
    if s.len() > 0 && s.last().id@ != k {
        lemma_last_material_index(s.drop_last(), k);
    }
}

fn find_last_material(materials: &Vec<Material>, k: &ElementId) -> (r: Option<usize>)
    ensures
        match r {
            Some(i) => i as int == last_material_index(materials@, k@) && i < materials@.len() && materials@[i as int].id@
                == k@,
            None => last_material_index(materials@, k@) < 0,
        },
{
    let mut i: usize = materials.len();
    assert(materials@.subrange(0, i as int) =~= materials@);
    while i > 0
        invariant
            i <= materials@.len(),
            last_material_index(materials@, k@) == last_material_index(materials@.subrange(0, i as int), k@),
        decreases i,
    {
        let ghost pre = materials@.subrange(0, i as int);
        assert(pre.drop_last() =~= materials@.subrange(0, i as int - 1));
        if materials[i - 1].id == *k {
            proof {
                lemma_last_material_index(materials@, k@);
            }
            return Some(i - 1);
        }
        i = i - 1;
    }
    None
}

/// Ids strictly increase along the sequence.
pub open spec fn strictly_sorted(s: Seq<Seq<char>>) -> bool {
    forall|i: int, j: int| 0 <= i < j < s.len() ==> seq_lt(#[trigger] s[i], #[trigger] s[j])
}

/// The distinct materials a system references, in increasing id order.
fn sorted_references(system: &ConstructionSystem) -> (r: Vec<ElementId>)
    ensures
        strictly_sorted(id_views(r@)),
        forall|k: Seq<char>| #[trigger] id_views(r@).contains(k) <==> system_references(*system, k),
        r@.len() <= 2 * system.layers@.len(),
{
    let mut pool: Vec<ElementId> = Vec::new();
    let mut i: usize = 0;
    while i < system.layers.len()
        invariant
            i <= system.layers@.len(),
            pool@.len() <= 2 * i,
            forall|a: int, b: int| 0 <= a < b < pool@.len() ==> #[trigger] pool@[a]@ != #[trigger] pool@[b]@,
            forall|k: Seq<char>| #[trigger] id_views(pool@).contains(k) <==> exists|q: int|
                0 <= q < i && layer_references(#[trigger] system.layers@[q], k),
        decreases system.layers@.len() - i,
    {
        let layer = &system.layers[i];
        let ghost p0 = pool@;
        if !contains_id(&pool, &layer.material) {
            pool.push(layer.material.clone());
            proof {
                lemma_id_views_push(p0, layer.material);
                assert forall|a: int, b: int| 0 <= a < b < pool@.len() implies #[trigger] pool@[a]@ != #[trigger] pool@[b]@ by {
                    if b == p0.len() {
                        assert(id_views(p0)[a] == pool@[a]@);
                    } else {
                        assert(pool@[a] == p0[a] && pool@[b] == p0[b]);
                    }
                }
            }
        }
        let ghost p1 = pool@;
        match &layer.framing {
            Some(f) => match &f.cavity_material {
                Some(c) => {
                    if !contains_id(&pool, c) {
                        pool.push(c.clone());
                        proof {
                            lemma_id_views_push(p1, *c);
                            assert forall|a: int, b: int| 0 <= a < b < pool@.len() implies #[trigger] pool@[a]@ != #[trigger] pool@[b]@ by {
                                if b == p1.len() {
                                    assert(id_views(p1)[a] == pool@[a]@);
                                } else {
                                    assert(pool@[a] == p1[a] && pool@[b] == p1[b]);
                                }
                            }
                        }
                    }
                },
                None => {},
            },
            None => {},
        }
        proof {
            assert forall|k: Seq<char>| #[trigger] id_views(pool@).contains(k) <==> exists|q: int|
                0 <= q < i + 1 && layer_references(#[trigger] system.layers@[q], k) by {
                if id_views(pool@).contains(k) {
                    let j = choose|j: int| 0 <= j < id_views(pool@).len() && id_views(pool@)[j] == k;
                    if j < p0.len() {
                        assert(id_views(p0).contains(k));
                        assert(id_views(p0)[j] == k);
                    } else {
                        assert(layer_references(system.layers@[i as int], k));
                    }
                }
                if exists|q: int| 0 <= q < i + 1 && layer_references(#[trigger] system.layers@[q], k) {
                    let q = choose|q: int| 0 <= q < i + 1 && layer_references(#[trigger] system.layers@[q], k);
                    if q < i {
                        assert(id_views(p0).contains(k));
                        let j = choose|j: int| 0 <= j < id_views(p0).len() && id_views(p0)[j] == k;
                        assert(id_views(pool@)[j] == k);
                    } else if layer.material@ == k {
                        if id_views(p0).contains(k) {
                            let j = choose|j: int| 0 <= j < id_views(p0).len() && id_views(p0)[j] == k;
                            assert(id_views(pool@)[j] == k);
                        } else {
                            assert(id_views(p1)[p0.len() as int] == k);
                            assert(id_views(pool@)[p0.len() as int] == k);
                        }
                    } else {
                        if id_views(p1).contains(k) {
                            let j = choose|j: int| 0 <= j < id_views(p1).len() && id_views(p1)[j] == k;
                            assert(id_views(pool@)[j] == k);
                        } else {
                            assert(id_views(pool@)[p1.len() as int] == k);
                        }
                    }
                }
            }
        }
        i = i + 1;
    }
    let ghost total = id_views(pool@);
    let mut out: Vec<ElementId> = Vec::new();
    while pool.len() > 0
        invariant
            forall|a: int, b: int| 0 <= a < b < pool@.len() ==> #[trigger] pool@[a]@ != #[trigger] pool@[b]@,
            strictly_sorted(id_views(out@)),
            forall|a: int, b: int| 0 <= a < out@.len() && 0 <= b < pool@.len() ==> seq_lt(#[trigger] out@[a]@, #[trigger] pool@[b]@),
            forall|k: Seq<char>| total.contains(k) <==> id_views(out@).contains(k) || id_views(pool@).contains(k),
            forall|k: Seq<char>| #[trigger] total.contains(k) <==> system_references(*system, k),
            out@.len() + pool@.len() <= 2 * system.layers@.len(),
        decreases pool@.len(),
    {
        let mut best: usize = 0;
        let mut j: usize = 1;
        while j < pool.len()
            invariant
                1 <= j <= pool@.len(),
                best < j,
                forall|q: int| 0 <= q < j ==> seq_le(pool@[best as int]@, #[trigger] pool@[q]@),
            decreases pool@.len() - j,
        {
            if str_less(pool[j].as_str(), pool[best].as_str()) {
                proof {
                    assert forall|q: int| 0 <= q < j implies seq_le(pool@[j as int]@, #[trigger] pool@[q]@) by {
                        if seq_lt(pool@[best as int]@, pool@[q]@) {
                            lemma_seq_lt_transitive(pool@[j as int]@, pool@[best as int]@, pool@[q]@);
                        }
                    }
                }
                best = j;
            } else {
                proof {
                    lemma_seq_lt_trichotomy(pool@[j as int]@, pool@[best as int]@);
                }
            }
            j = j + 1;
        }
        let ghost p = pool@;
        let ghost o = out@;
        let x = pool.remove(best);
        out.push(x);
        proof {
            lemma_id_views_push(o, x);
            assert forall|b: int| 0 <= b < pool@.len() implies seq_lt(x@, #[trigger] pool@[b]@) by {
                let ob = if b < best {
                    b
                } else {
                    b + 1
                };
                assert(pool@[b] == p[ob]);
                assert(seq_le(p[best as int]@, p[ob]@));
            }
            assert forall|a: int, b: int| 0 <= a < out@.len() && 0 <= b < pool@.len() implies seq_lt(
                #[trigger] out@[a]@,
                #[trigger] pool@[b]@,
            ) by {
                let ob = if b < best {
                    b
                } else {
                    b + 1
                };
                assert(pool@[b] == p[ob]);
                if a < o.len() {
                    assert(out@[a] == o[a]);
                }
            }
            assert forall|a: int, b: int| 0 <= a < b < pool@.len() implies #[trigger] pool@[a]@ != #[trigger] pool@[b]@ by {
                let oa = if a < best {
                    a
                } else {
                    a + 1
                };
                let ob = if b < best {
                    b
                } else {
                    b + 1
                };
                assert(pool@[a] == p[oa] && pool@[b] == p[ob]);
            }
            assert forall|a: int, b: int| 0 <= a < b < id_views(out@).len() implies seq_lt(
                #[trigger] id_views(out@)[a],
                #[trigger] id_views(out@)[b],
            ) by {
                if b < o.len() {
                    assert(id_views(o)[a] == id_views(out@)[a] && id_views(o)[b] == id_views(out@)[b]);
                } else {
                    assert(out@[a] == o[a]);
                    assert(seq_lt(o[a]@, p[best as int]@));
                }
            }
            assert forall|k: Seq<char>| total.contains(k) <==> id_views(out@).contains(k) || id_views(pool@).contains(k) by {
                assert(total.contains(k) <==> id_views(o).contains(k) || id_views(p).contains(k));
                if id_views(o).contains(k) {
                    let j = choose|j: int| 0 <= j < id_views(o).len() && id_views(o)[j] == k;
                    assert(out@[j] == o[j]);
                    assert(id_views(out@)[j] == k);
                }
                if id_views(p).contains(k) {
                    let j = choose|j: int| 0 <= j < id_views(p).len() && id_views(p)[j] == k;
                    if j == best {
                        assert(id_views(out@)[o.len() as int] == k);
                    } else {
                        let nj = if j < best {
                            j
                        } else {
                            j - 1
                        };
                        assert(pool@[nj] == p[j]);
                        assert(id_views(pool@)[nj] == k);
                    }
                }
                if id_views(out@).contains(k) {
                    let j = choose|j: int| 0 <= j < id_views(out@).len() && id_views(out@)[j] == k;
                    if j < o.len() {
                        assert(out@[j] == o[j]);
                        assert(id_views(o)[j] == k);
                    } else {
                        assert(id_views(p)[best as int] == k);
                    }
                }
                if id_views(pool@).contains(k) {
                    let j = choose|j: int| 0 <= j < id_views(pool@).len() && id_views(pool@)[j] == k;
                    let oj = if j < best {
                        j
                    } else {
                        j + 1
                    };
                    assert(pool@[j] == p[oj]);
                    assert(id_views(p)[oj] == k);
                }
            }
        }
    }
    proof {
        assert forall|k: Seq<char>| #[trigger] id_views(out@).contains(k) <==> system_references(*system, k) by {
            assert(total.contains(k) <==> id_views(out@).contains(k) || id_views(pool@).contains(k));
            assert(total.contains(k) <==> system_references(*system, k));
            assert(!id_views(pool@).contains(k));
        }
    }
    out
}

/// `out` holds fresh ids for `sources` minted in order, each against `used`
/// and the ids minted before it.
pub open spec fn minted_chain(prefix: Seq<char>, sources: Seq<Seq<char>>, used: Seq<Seq<char>>, out: Seq<Seq<char>>) -> bool
    decreases sources.len(),
{
    &&& out.len() == sources.len()
    &&& sources.len() > 0 ==> {
        &&& minted_chain(prefix, sources.drop_last(), used, out.drop_last())
        &&& minted(prefix, sources.last(), used + out.drop_last(), out.last())
    }
}

/// What an imported system's materials are: for the distinct referenced
/// materials in increasing id order, fresh ids minted in that order, each
/// material vendored from the library's last material of its id, and the
/// system vendored with references remapped, its id minted after them.
pub open spec fn system_imported(
    lib: Library,
    src: ConstructionSystem,
    hashes: Seq<(ElementId, String)>,
    used: Seq<Seq<char>>,
    refs: Seq<Seq<char>>,
    material_ids: Seq<Seq<char>>,
    system_id: Seq<char>,
    mats: Seq<Material>,
    sys: ConstructionSystem,
    remap: Seq<(ElementId, ElementId)>,
) -> bool {
    let prefix = id_prefix(lib.coordinate@);
    &&& strictly_sorted(refs)
    &&& forall|k: Seq<char>| #[trigger] refs.contains(k) <==> system_references(src, k)
    &&& minted_chain(prefix, refs, used, material_ids)
    &&& minted(prefix, src.id@, used + material_ids, system_id)
    &&& remap.len() == refs.len()
    &&& forall|i: int| 0 <= i < remap.len() ==> (#[trigger] remap[i]).0@ == refs[i] && remap[i].1@ == material_ids[i]
    &&& mats.len() == refs.len()
    &&& forall|i: int| 0 <= i < mats.len() ==> vendored_material(
        lib,
        lib.materials@[last_material_index(lib.materials@, refs[i])],
        #[trigger] mats[i],
        material_ids[i],
        hash_for(hashes, refs[i])->0,
    )
    &&& vendored_system(lib, src, sys, system_id, remap, hash_for(hashes, src.id@)->0)
}

proof fn lemma_remap_lookup(remap: Seq<(ElementId, ElementId)>, refs: Seq<Seq<char>>, ids: Seq<Seq<char>>, k: int)
    requires
        remap.len() == refs.len(),
        ids.len() == refs.len(),
        forall|i: int| 0 <= i < remap.len() ==> (#[trigger] remap[i]).0@ == refs[i] && remap[i].1@ == ids[i],
        0 <= k < refs.len(),
        forall|a: int, b: int| 0 <= a < b < refs.len() ==> #[trigger] refs[a] != #[trigger] refs[b],
    ensures
        remapped_id(remap, refs[k]) == Some(ids[k]),
    decreases remap.len(),
{
    if k > 0 {
        assert(remap[0].0@ != refs[k]);
        lemma_remap_lookup(remap.drop_first(), refs.drop_first(), ids.drop_first(), k - 1);
    }
}

/// Imports one library system with the closure of the materials it
/// references: each material and the system get fresh ids and their
/// provenance, the system's layers point at the imported materials, and the
/// library version is recorded. Nothing changes when the system is unknown,
/// references a material the library lacks, or the project would not validate.
#[verifier::spinoff_prover]
#[verifier::rlimit(40)]
pub fn import_system(
    project: &mut BuildingModel,
    library: &Library,
    library_content_hash: &str,
    source_id: &ElementId,
    item_hashes: &Vec<(ElementId, String)>,
) -> (r: Result<ImportResult, LibraryImportError>)
    requires
        model_fits(*old(project)),
        hashes_cover(*library, item_hashes@),
        forall|i: int| 0 <= i < library.systems@.len() ==> project_ids(*old(project)).len() + 2 * (
        #[trigger] library.systems@[i]).layers@.len() + 4 <= usize::MAX,
    ensures
        (key_index(library.systems@, source_id@) < 0) <==> (r matches Err(LibraryImportError::SystemNotFound { .. })),
        r matches Err(LibraryImportError::SystemNotFound { id }) ==> id@ == source_id@,
        r is Err ==> unchanged(*old(project), *final(project)),
        r matches Err(LibraryImportError::MissingReferencedMaterial { system, material }) ==> {
            let src = library.systems@[key_index(library.systems@, source_id@)];
            &&& system@ == src.id@
            &&& system_references(src, material@)
            &&& last_material_index(library.materials@, material@) < 0
        },
        key_index(library.systems@, source_id@) >= 0 && (forall|k: Seq<char>|
            system_references(library.systems@[key_index(library.systems@, source_id@)], k) ==> last_material_index(
                library.materials@,
                k,
            ) >= 0) ==> r is Ok || r matches Err(LibraryImportError::Model(_)),
        r matches Ok(res) ==> {
            let src = library.systems@[key_index(library.systems@, source_id@)];
            &&& res.system is Some
            &&& exists|refs: Seq<Seq<char>>, mats: Seq<Material>, sys: ConstructionSystem, remap: Seq<(ElementId, ElementId)>|
                {
                    &&& #[trigger] system_imported(
                        *library,
                        src,
                        item_hashes@,
                        project_ids(*old(project)),
                        refs,
                        id_views(res.materials@),
                        res.system->0@,
                        mats,
                        sys,
                        remap,
                    )
                    &&& final(project).materials@.to_multiset() == (old(project).materials@ + mats).to_multiset()
                    &&& final(project).systems@.to_multiset() == old(project).systems@.push(sys).to_multiset()
                }
            &&& stamped_in_order(old(project).libraries@, final(project).libraries@, *library, library_content_hash@)
            &&& model_sorted(*final(project))
        },
        r matches Err(LibraryImportError::Model(_)) ==> exists|p: BuildingModel|
            #[trigger] system_staged(*old(project), p, *library, library_content_hash@, source_id@, item_hashes@) && !(
            model_valid(p) && (no_solved_dimensions(p) || walls_decidable(p))),
        key_index(library.systems@, source_id@) >= 0 && (forall|k: Seq<char>|
            system_references(library.systems@[key_index(library.systems@, source_id@)], k) ==> last_material_index(
                library.materials@,
                k,
            ) >= 0) && (forall|p: BuildingModel|
            #[trigger] system_staged(*old(project), p, *library, library_content_hash@, source_id@, item_hashes@)
                ==> model_valid(p) && (no_solved_dimensions(p) || walls_decidable(p))) ==> r is Ok,
        r is Ok ==> exists|p: BuildingModel|
            #[trigger] system_staged(*old(project), p, *library, library_content_hash@, source_id@, item_hashes@)
                && model_valid(p) && sorts_to(p, *final(project)),
{
    let index = match position_of(&library.systems, source_id.as_str()) {
        Some(i) => i,
        None => {
            return Err(LibraryImportError::SystemNotFound { id: source_id.clone() });
        },
    };
    let source = &library.systems[index];
    let ghost src = library.systems@[index as int];
    let prefix = library_id_prefix(library);
    let refs = sorted_references(source);
    let ghost refs_v = id_views(refs@);
    let mut used = collect_project_ids(project);
    let ghost used0 = id_views(used@);
    let mut remap: Vec<(ElementId, ElementId)> = Vec::new();
    let mut material_ids: Vec<ElementId> = Vec::new();
    let mut imported: Vec<Material> = Vec::new();
    let mut k: usize = 0;
    while k < refs.len()
        invariant
            k <= refs@.len(),
            refs_v == id_views(refs@),
            strictly_sorted(refs_v),
            refs@.len() <= 2 * source.layers@.len(),
            *source == src,
            src == library.systems@[index as int],
            key_index(library.systems@, source_id@) == index as int,
            forall|q: Seq<char>| #[trigger] refs_v.contains(q) <==> system_references(src, q),
            index < library.systems@.len(),
            used0.len() + 2 * src.layers@.len() + 4 <= usize::MAX,
            id_views(used@) == used0 + id_views(material_ids@),
            hashes_cover(*library, item_hashes@),
            prefix@ == id_prefix(library.coordinate@),
            material_ids@.len() == k,
            minted_chain(prefix@, refs_v.take(k as int), used0, id_views(material_ids@)),
            remap@.len() == k,
            forall|i: int| 0 <= i < k ==> (#[trigger] remap@[i]).0@ == refs_v[i] && remap@[i].1@ == material_ids@[i]@,
            imported@.len() == k,
            forall|i: int| 0 <= i < k ==> vendored_material(
                *library,
                library.materials@[last_material_index(library.materials@, refs_v[i])],
                #[trigger] imported@[i],
                material_ids@[i]@,
                hash_for(item_hashes@, refs_v[i])->0,
            ),
            forall|i: int| 0 <= i < k ==> last_material_index(library.materials@, #[trigger] refs_v[i]) >= 0,
            *project == *old(project),
        decreases refs@.len() - k,
    {
        let j = match find_last_material(&library.materials, &refs[k]) {
            Some(j) => j,
            None => {
                proof {
                    assert(refs_v.contains(refs_v[k as int]));
                }
                return Err(
                    LibraryImportError::MissingReferencedMaterial { system: source.id.clone(), material: refs[k].clone() },
                );
            },
        };
        let material = &library.materials[j];
        let ghost u = used@;
        assert(used@.len() == id_views(used@).len());
        let minted_id = mint_project_id(prefix.as_str(), &material.id, &mut used);
        proof {
            assert(material.id@ == refs_v[k as int]);
            assert(hash_for(item_hashes@, library.materials@[j as int].id@) is Some);
        }
        let hash = lookup_hash(item_hashes, &material.id);
        let ghost mids = id_views(material_ids@);
        remap.push((refs[k].clone(), minted_id.clone()));
        imported.push(vendor_material(library, material, minted_id.clone(), hash));
        material_ids.push(minted_id);
        proof {
            lemma_id_views_push(material_ids@.drop_last(), minted_id);
            lemma_id_views_push(u, minted_id);
            assert((used0 + mids).push(minted_id@) =~= used0 + mids.push(minted_id@));
            assert(material_ids@.drop_last() =~= material_ids@.subrange(0, k as int));
            assert(id_views(material_ids@) =~= mids.push(minted_id@));
            assert(refs_v.take(k as int + 1).drop_last() =~= refs_v.take(k as int));
            assert(id_views(material_ids@).drop_last() =~= mids);
            assert(id_views(used@) =~= used0 + id_views(material_ids@));
        }
        k = k + 1;
    }
    proof {
        assert(refs_v.take(refs@.len() as int) =~= refs_v);
    }
    let ghost mids = id_views(material_ids@);
    let system_id = mint_project_id(prefix.as_str(), &source.id, &mut used);
    proof {
        assert(hash_for(item_hashes@, library.systems@[index as int].id@) is Some);
        assert forall|q: Seq<char>| system_references(src, q) implies remapped_id(remap@, q) is Some by {
            assert(refs_v.contains(q));
            let t = choose|t: int| 0 <= t < refs_v.len() && refs_v[t] == q;
            assert forall|a: int, b: int| 0 <= a < b < refs_v.len() implies #[trigger] refs_v[a] != #[trigger] refs_v[b] by {
                lemma_seq_lt_trichotomy(refs_v[a], refs_v[b]);
            }
            lemma_remap_lookup(remap@, refs_v, mids, t);
        }
    }
    let hash = lookup_hash(item_hashes, &source.id);
    let system = match vendor_system(library, source, system_id.clone(), &remap, hash) {
        Ok(system) => system,
        Err(e) => {
            return Err(e);
        },
    };
    let ghost sys = system;
    let ghost mats = imported@;
    let ghost before = *project;
    let added = ensure_library_stamp(project, library, library_content_hash);
    let n0 = project.materials.len();
    project.materials.append(&mut imported);
    project.systems.push(system);
    let ghost staged = *project;
    proof {
        assert(staged.materials@ == old(project).materials@ + mats);
        assert(staged.systems@ =~= old(project).systems@ + seq![sys]);
        assert(system_imported(*library, src, item_hashes@, project_ids(*old(project)), refs_v, mids, system_id@, mats, sys, remap@));
        assert(src == library.systems@[key_index(library.systems@, source_id@)]);
        assert(staged_with(*old(project), staged, *library, library_content_hash@, mats, seq![sys]));
        assert(system_staged(*old(project), staged, *library, library_content_hash@, source_id@, item_hashes@));
    }
    match project.validate() {
        Ok(()) => {
            project.sort_deterministically();
            proof {
                assert(model_valid(staged) && sorts_to(staged, *project));
                assert(staged.materials@ == old(project).materials@ + mats);
                assert(staged.systems@ == old(project).systems@.push(sys));
                assert(system_imported(
                    *library,
                    src,
                    item_hashes@,
                    project_ids(*old(project)),
                    refs_v,
                    mids,
                    system_id@,
                    mats,
                    sys,
                    remap@,
                ));
                assert(project.materials@.to_multiset() == (old(project).materials@ + mats).to_multiset());
                assert(project.systems@.to_multiset() == old(project).systems@.push(sys).to_multiset());
                assert(stamped(old(project).libraries@, staged.libraries@, *library, library_content_hash@));
                assert(stamped_in_order(old(project).libraries@, project.libraries@, *library, library_content_hash@));
                assert(src == library.systems@[key_index(library.systems@, source_id@)]);
                assert(mids == id_views(material_ids@));
            }
            let result = ImportResult { materials: material_ids, system: Some(system_id) };
            proof {
                assert(system_imported(
                    *library,
                    library.systems@[key_index(library.systems@, source_id@)],
                    item_hashes@,
                    project_ids(*old(project)),
                    refs_v,
                    id_views(result.materials@),
                    result.system->0@,
                    mats,
                    sys,
                    remap@,
                ));
                assert(exists|refs: Seq<Seq<char>>, ms: Seq<Material>, sy: ConstructionSystem, rm: Seq<(ElementId, ElementId)>|
                    {
                        &&& #[trigger] system_imported(
                            *library,
                            library.systems@[key_index(library.systems@, source_id@)],
                            item_hashes@,
                            project_ids(*old(project)),
                            refs,
                            id_views(result.materials@),
                            result.system->0@,
                            ms,
                            sy,
                            rm,
                        )
                        &&& project.materials@.to_multiset() == (old(project).materials@ + ms).to_multiset()
                        &&& project.systems@.to_multiset() == old(project).systems@.push(sy).to_multiset()
                    });
            }
            Ok(result)
        },
        Err(e) => {
            project.systems.pop();
            let ghost mid = *project;
            while project.materials.len() > n0
                invariant
                    n0 <= project.materials@.len(),
                    project.materials@.subrange(0, n0 as int) == before.materials@,
                    *project == (BuildingModel { materials: project.materials, ..mid }),
                decreases project.materials@.len(),
            {
                project.materials.pop();
            }
            if added {
                project.libraries.pop();
            }
            proof {
                assert(project.materials@ =~= before.materials@);
                assert(project.libraries@ =~= before.libraries@);
                assert(project.systems@ =~= before.systems@);
            }
            Err(LibraryImportError::Model(e))
        },
    }
}

/// Imports a material or a system, as `import_material` or `import_system`.
#[verifier::spinoff_prover]
#[verifier::rlimit(40)]
pub fn import_item(
    project: &mut BuildingModel,
    library: &Library,
    library_content_hash: &str,
    item: LibraryItem,
    item_hashes: &Vec<(ElementId, String)>,
) -> (r: Result<ImportResult, LibraryImportError>)
    requires
        model_fits(*old(project)),
        hashes_cover(*library, item_hashes@),
        project_ids(*old(project)).len() + 3 <= usize::MAX,
        forall|i: int| 0 <= i < library.systems@.len() ==> project_ids(*old(project)).len() + 2 * (
        #[trigger] library.systems@[i]).layers@.len() + 4 <= usize::MAX,
    ensures
        r is Err ==> unchanged(*old(project), *final(project)),
        match item {
            LibraryItem::Material(id) => (key_index(library.materials@, id@) < 0) <==> (r matches Err(
                LibraryImportError::MaterialNotFound { .. },
            )),
            LibraryItem::System(id) => (key_index(library.systems@, id@) < 0) <==> (r matches Err(
                LibraryImportError::SystemNotFound { .. },
            )),
        },
        r matches Ok(res) ==> (item is Material ==> res.system is None && res.materials@.len() == 1) && (item is System
            ==> res.system is Some),
        r is Ok ==> stamped_in_order(old(project).libraries@, final(project).libraries@, *library, library_content_hash@)
            && model_sorted(*final(project)),
        r is Ok ==> exists|p: BuildingModel| #[trigger] model_valid(p) && sorts_to(p, *final(project)),
{
    match item {
        LibraryItem::Material(id) => import_material(project, library, library_content_hash, &id, item_hashes),
        LibraryItem::System(id) => import_system(project, library, library_content_hash, &id, item_hashes),
    }
}

/// Imports from one library version share one stamp: after a first import has
/// recorded the version, a second import leaves the stamps as they are.
pub proof fn lemma_repeated_imports_share_one_stamp(
    before: Seq<LibraryStamp>,
    mid: Seq<LibraryStamp>,
    after: Seq<LibraryStamp>,
    lib: Library,
    first_hash: Seq<char>,
    second_hash: Seq<char>,
)
    requires
        stamped_in_order(before, mid, lib, first_hash),
        stamped_in_order(mid, after, lib, second_hash),
    ensures
        has_stamp(mid, lib),
        after.to_multiset() == mid.to_multiset(),
{
    let s1 = choose|s: Seq<LibraryStamp>| #[trigger] stamped(before, s, lib, first_hash) && mid.to_multiset() == s.to_multiset();
    if !has_stamp(before, lib) {
        assert(s1[s1.len() - 1].uid@ == lib.uid@ && s1[s1.len() - 1].version_id@ == lib.version_id@);
    } else {
        let i = choose|i: int| 0 <= i < before.len() && before[i].uid@ == lib.uid@ && before[i].version_id@ == lib.version_id@;
        assert(s1[i] == before[i]);
    }
    lemma_has_stamp_rearranged(s1, mid, lib);
    let s2 = choose|s: Seq<LibraryStamp>| #[trigger] stamped(mid, s, lib, second_hash) && after.to_multiset() == s.to_multiset();
    assert(s2 == mid);
}
} // verus!
