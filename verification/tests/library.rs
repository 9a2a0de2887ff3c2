use framer::element::ElementId;
use framer::error::ModelError;
use framer::library::{Library, LibraryDocument, LibraryError};
use framer::material::Material;
use framer::system::{ConstructionSystem, SystemKind};

fn empty_system(id: &str) -> ConstructionSystem {
    ConstructionSystem {
        id: ElementId::new(id.to_owned()),
        name: id.to_owned(),
        kind: SystemKind::Wall,
        source: None,
        layers: vec![],
    }
}

fn library(materials: Vec<Material>, systems: Vec<ConstructionSystem>) -> Library {
    Library {
        uid: "11111111-1111-4111-8111-111111111111".to_owned(),
        version_id: "019e9150-0000-7000-8000-000000000001".to_owned(),
        version: "1.0.0".to_owned(),
        coordinate: "framer-lib://acme/walls".to_owned(),
        materials,
        systems,
    }
}

#[test]
fn library_validation_names_the_first_repeated_material_id() {
    let lib = library(
        vec![
            Material::solid_color("mat-a", "A", [1, 2, 3]),
            Material::solid_color("mat-b", "B", [1, 2, 3]),
            Material::solid_color("mat-a", "A again", [1, 2, 3]),
        ],
        vec![],
    );
    match lib.validate() {
        Err(ModelError::DuplicateElementId { id }) => assert_eq!(id.as_str(), "mat-a"),
        other => panic!("unexpected {:?}", other),
    }
}

#[test]
fn library_validation_refuses_a_system_id_taken_by_a_material() {
    let lib = library(vec![Material::solid_color("shared", "A", [1, 2, 3])], vec![empty_system("shared")]);
    match lib.validate() {
        Err(ModelError::DuplicateElementId { id }) => assert_eq!(id.as_str(), "shared"),
        other => panic!("unexpected {:?}", other),
    }
}

#[test]
fn library_validation_names_an_invalid_material_id() {
    let lib = library(vec![Material::solid_color("", "Blank", [1, 2, 3])], vec![]);
    assert!(matches!(lib.validate(), Err(ModelError::InvalidElementId { .. })));
}

#[test]
fn library_document_wraps_the_catalog_error() {
    let mut document = LibraryDocument::new(library(vec![Material::solid_color("mat-a", "A", [1, 2, 3])], vec![]));
    document.systems.push(empty_system("mat-a"));
    match document.validate() {
        Err(LibraryError::Model(ModelError::DuplicateElementId { id })) => assert_eq!(id.as_str(), "mat-a"),
        other => panic!("unexpected {:?}", other),
    }
}

