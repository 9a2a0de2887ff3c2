use framer::element::ElementId;
use framer::import::{
    hash_text, import_item, import_material, import_system, installed_file_name, library_content_hash,
    library_id_prefix, load_verified_library, material_content_hash, mint_project_id, system_content_hash,
    LibraryImportError, LibraryItem, LocalSearchPathResolver,
};
use framer::library::Library;
use framer::material::{Material, MaterialSource};
use framer::model::BuildingModel;
use framer::system::{
    BoardProfile, ConstructionLayer, ConstructionSystem, FramingPattern, FramingSpec, LayerFunction, MemberFamily,
    SystemKind,
};
use framer::units::Length;

fn stand_in_system(id: &str) -> ConstructionSystem {
    ConstructionSystem {
        id: ElementId::new(id.to_owned()),
        name: id.to_owned(),
        kind: SystemKind::Wall,
        source: None,
        layers: vec![ConstructionLayer::new(LayerFunction::Framing, "mat-spf", BoardProfile::TwoBySix.nominal_depth())
            .with_framing(FramingSpec {
                member: BoardProfile::TwoBySix,
                spacing: Length::from_whole_inches(16),
                pattern: FramingPattern::Single,
                member_family: MemberFamily::Stud,
                cavity_material: None,
            })],
    }
}

/// A small stand-in for the starter catalog.
fn starter() -> Library {
    Library {
        uid: "8f6ebee0-fbdc-4f29-9d90-0e3f3f0640a8".to_owned(),
        version_id: "019e8b10-9b30-7c2b-8b4e-1db251cb8221".to_owned(),
        version: "0.1.0".to_owned(),
        coordinate: "framer-lib://framer/starter".to_owned(),
        materials: vec![Material::solid_color("mat-spf", "SPF lumber", [200, 170, 120])],
        systems: vec![stand_in_system("system-wall-exterior-1"), stand_in_system("system-wall-interior-1")],
    }
}

fn fixture_library() -> Library {
    Library {
        uid: "11111111-1111-4111-8111-111111111111".to_owned(),
        version_id: "019e9150-0000-7000-8000-000000000001".to_owned(),
        version: "1.0.0".to_owned(),
        coordinate: "framer-lib://acme/walls".to_owned(),
        materials: vec![
            Material::solid_color("mat-cedar", "Cedar", [170, 110, 70]),
            Material::solid_color("mat-mineral-wool", "Mineral wool", [176, 188, 170]),
        ],
        systems: vec![ConstructionSystem {
            id: ElementId::new("system-rainscreen".to_owned()),
            name: "Rainscreen wall".to_owned(),
            kind: SystemKind::Wall,
            source: None,
            layers: vec![
                ConstructionLayer::new(LayerFunction::InteriorFinish, "mat-cedar", Length::from_whole_inches(1)),
                ConstructionLayer::new(LayerFunction::Framing, "mat-cedar", BoardProfile::TwoByFour.nominal_depth())
                    .with_framing(FramingSpec {
                        member: BoardProfile::TwoByFour,
                        spacing: Length::from_whole_inches(16),
                        pattern: FramingPattern::Single,
                        member_family: MemberFamily::Stud,
                        cavity_material: Some(ElementId::new("mat-mineral-wool".to_owned())),
                    }),
            ],
        }],
    }
}

/// Content hashes for every item of the fixture library, from stand-in JSON.
fn fixture_hashes() -> Vec<(ElementId, String)> {
    vec![
        (ElementId::new("mat-cedar".to_owned()), material_content_hash("{\"id\": \"mat-cedar\"}")),
        (ElementId::new("mat-mineral-wool".to_owned()), material_content_hash("{\"id\": \"mat-mineral-wool\"}")),
        (ElementId::new("system-rainscreen".to_owned()), system_content_hash("{\"id\": \"system-rainscreen\"}")),
    ]
}

const FIXTURE_DOCUMENT: &str = "{\"format\": \"framer-library\", \"uid\": \"11111111\"}\n";

#[test]
fn importing_system_vendors_material_closure_and_remaps_references() {
    let library = fixture_library();
    let hash = library_content_hash(FIXTURE_DOCUMENT);
    let mut project = BuildingModel::new(starter());

    let imported =
        import_system(&mut project, &library, &hash, &ElementId::new("system-rainscreen".to_owned()), &fixture_hashes())
            .unwrap();

    assert_eq!(
        imported.materials,
        vec![ElementId::new("acme-walls-mat-cedar".to_owned()), ElementId::new("acme-walls-mat-mineral-wool".to_owned())]
    );
    assert_eq!(imported.system, Some(ElementId::new("acme-walls-system-rainscreen".to_owned())));
    let system = project
        .systems
        .iter()
        .find(|system| system.id == ElementId::new("acme-walls-system-rainscreen".to_owned()))
        .unwrap();
    assert!(system.source.is_some());
    assert_eq!(system.layers[0].material, ElementId::new("acme-walls-mat-cedar".to_owned()));
    assert_eq!(
        system.layers[1].framing.as_ref().unwrap().cavity_material,
        Some(ElementId::new("acme-walls-mat-mineral-wool".to_owned()))
    );
    assert_eq!(project.libraries.len(), 1);
    project.validate().unwrap();
}

#[test]
fn repeated_imports_from_same_library_version_share_one_stamp() {
    let library = fixture_library();
    let hash = library_content_hash(FIXTURE_DOCUMENT);
    let mut project = BuildingModel::new(starter());

    import_material(&mut project, &library, &hash, &ElementId::new("mat-cedar".to_owned()), &fixture_hashes()).unwrap();
    import_system(&mut project, &library, &hash, &ElementId::new("system-rainscreen".to_owned()), &fixture_hashes())
        .unwrap();

    assert_eq!(project.libraries.len(), 1);
    assert_eq!(project.libraries[0].uid, library.uid);
    assert_eq!(project.libraries[0].version_id, library.version_id);
    assert_eq!(project.libraries[0].content_hash, hash);
    assert_eq!(project.materials.iter().filter(|material| matches!(material.source, MaterialSource::Library(_))).count(), 3);
    assert!(project.systems.iter().any(|system| system.id == ElementId::new("acme-walls-system-rainscreen".to_owned())));
    project.validate().unwrap();
}

#[test]
fn import_collision_uses_lowest_free_suffix() {
    let library = fixture_library();
    let hash = library_content_hash(FIXTURE_DOCUMENT);
    let mut project = BuildingModel::new(starter());
    project.materials.push(Material::solid_color("acme-walls-mat-cedar", "Existing", [0, 0, 0]));

    let imported =
        import_material(&mut project, &library, &hash, &ElementId::new("mat-cedar".to_owned()), &fixture_hashes()).unwrap();

    assert_eq!(imported.materials, vec![ElementId::new("acme-walls-mat-cedar-2".to_owned())]);
    let material = project.material(&ElementId::new("acme-walls-mat-cedar-2".to_owned())).unwrap();
    assert!(matches!(material.source, MaterialSource::Library(_)));
}

#[test]
fn verifies_expected_library_hash() {
    let hash = library_content_hash(FIXTURE_DOCUMENT);
    let loaded = load_verified_library(fixture_library(), FIXTURE_DOCUMENT, &Some(hash.clone())).unwrap();
    assert_eq!(loaded.content_hash, hash);
    let bad = load_verified_library(fixture_library(), FIXTURE_DOCUMENT, &Some("blake3:0000".to_owned()));
    assert!(matches!(bad, Err(LibraryImportError::ContentHashMismatch { .. })));
}

#[test]
fn content_hash_is_blake3_of_the_text() {
    // BLAKE3 of the empty input.
    assert_eq!(hash_text(""), "blake3:af1349b9f5f9a1a6a0404dea36dcc9499bcb25c9adc112b7cc9a93cae41f3262");
    let h = material_content_hash("{}");
    assert_eq!(h, hash_text("{}\n"));
    assert_ne!(h, hash_text("{}"));
    assert_eq!(h.len(), 71);
}

#[test]
fn unknown_items_are_refused_without_changes() {
    let library = fixture_library();
    let hash = library_content_hash(FIXTURE_DOCUMENT);
    let mut project = BuildingModel::new(starter());
    let materials_before = project.materials.len();
    let missing = import_material(&mut project, &library, &hash, &ElementId::new("mat-oak".to_owned()), &fixture_hashes());
    assert!(matches!(missing, Err(LibraryImportError::MaterialNotFound { .. })));
    let missing = import_item(
        &mut project,
        &library,
        &hash,
        LibraryItem::System(ElementId::new("system-none".to_owned())),
        &fixture_hashes(),
    );
    assert!(matches!(missing, Err(LibraryImportError::SystemNotFound { .. })));
    assert_eq!(project.materials.len(), materials_before);
    assert!(project.libraries.is_empty());
}

#[test]
fn system_with_a_missing_material_is_refused() {
    let mut library = fixture_library();
    library.materials.retain(|material| material.id.as_str() != "mat-mineral-wool");
    let hash = library_content_hash(FIXTURE_DOCUMENT);
    let mut project = BuildingModel::new(starter());
    let result =
        import_system(&mut project, &library, &hash, &ElementId::new("system-rainscreen".to_owned()), &fixture_hashes());
    match result {
        Err(LibraryImportError::MissingReferencedMaterial { system, material }) => {
            assert_eq!(system.as_str(), "system-rainscreen");
            assert_eq!(material.as_str(), "mat-mineral-wool");
        }
        other => panic!("unexpected {other:?}"),
    }
    assert!(project.libraries.is_empty());
}

#[test]
fn id_prefix_slugs_the_coordinate() {
    let mut library = fixture_library();
    assert_eq!(library_id_prefix(&library), "acme-walls");
    library.coordinate = "framer-lib://Acme__Walls//v2/".to_owned();
    assert_eq!(library_id_prefix(&library), "acme-walls-v2");
    library.coordinate = "///".to_owned();
    assert_eq!(library_id_prefix(&library), "library");
    library.coordinate = "plain".to_owned();
    assert_eq!(library_id_prefix(&library), "plain");
}

#[test]
fn minted_ids_skip_used_suffixes() {
    let mut used = vec![
        ElementId::new("acme-mat".to_owned()),
        ElementId::new("acme-mat-2".to_owned()),
        ElementId::new("acme-mat-3".to_owned()),
    ];
    let id = mint_project_id("acme", &ElementId::new("mat".to_owned()), &mut used);
    assert_eq!(id.as_str(), "acme-mat-4");
    assert_eq!(used.len(), 4);
    let fresh = mint_project_id("acme", &ElementId::new("other".to_owned()), &mut used);
    assert_eq!(fresh.as_str(), "acme-other");
}

#[test]
fn installed_library_file_names() {
    assert_eq!(installed_file_name("framer-starter"), "framer-starter.framerlib");
    assert_eq!(installed_file_name("walls.framerlib"), "walls.framerlib");
    let resolver = LocalSearchPathResolver::new(vec!["/usr/share/framer".to_owned()]);
    assert_eq!(resolver.roots.len(), 1);
}

#[test]
fn an_import_into_a_project_that_fails_validation_changes_nothing() {
    let library = fixture_library();
    let hash = library_content_hash(FIXTURE_DOCUMENT);
    let mut project = BuildingModel::new(starter());
    project.levels.clear();
    let imported = import_material(&mut project, &library, &hash, &ElementId::new("mat-cedar".to_owned()), &fixture_hashes());
    assert!(matches!(imported, Err(LibraryImportError::Model(framer::error::ModelError::MissingLevel))));
    assert_eq!(project.materials.len(), starter().materials.len());
    assert!(project.libraries.is_empty());
}
