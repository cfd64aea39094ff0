use fast_disambig::catalogue::{
    component_dataset_destination, package_for_destination, CatalogueError, CatalogueValue,
};
use fast_disambig::resources::{
    destination_parts, resolve_step, sina_asset_url, ResolveAction, ResolveState,
};

#[test]
fn resource_destinations_cannot_escape_data_directory() {
    assert!(destination_parts("models/morph.json").is_some());
    assert!(destination_parts("").is_none());
    assert!(destination_parts("../outside").is_none());
    assert!(destination_parts("/outside").is_none());
}

#[test]
fn downloader_resource_destinations_cannot_escape_data_directory() {
    assert!(destination_parts("morphology_db/calima-msa-r13").is_some());
    assert!(destination_parts("").is_none());
    assert!(destination_parts("../outside").is_none());
    assert!(destination_parts("/outside").is_none());
}

#[test]
fn destination_parts_follow_path_components() {
    assert_eq!(destination_parts("a//b/./c/").unwrap(), vec!["a", "b", "c"]);
    assert!(destination_parts("./a").is_none());
    assert!(destination_parts(".").is_none());
    assert!(destination_parts("a/../b").is_none());
    assert!(destination_parts("//").is_none());
}

#[test]
fn sina_assets_have_addresses() {
    assert_eq!(
        sina_asset_url("morph"),
        Some("https://huggingface.co/datasets/hadikhamoud/fast-disambig-data/resolve/main/sina/morph.json?download=true")
    );
    assert!(sina_asset_url("catalogue").unwrap().ends_with("catalogue.json?download=true"));
    assert_eq!(sina_asset_url("nothing"), None);
}

#[test]
fn resolution_looks_before_it_downloads() {
    assert_eq!(resolve_step(ResolveState::Start, true, false), ResolveAction::UseDirect);
    assert_eq!(resolve_step(ResolveState::Start, false, false), ResolveAction::CheckDataDir);
    assert_eq!(resolve_step(ResolveState::InDataDir, true, true), ResolveAction::UseDataDir);
    assert_eq!(resolve_step(ResolveState::InDataDir, false, true), ResolveAction::CheckCatalogue);
    assert_eq!(resolve_step(ResolveState::InCatalogue, true, false), ResolveAction::UseInstalled);
    assert_eq!(resolve_step(ResolveState::InCatalogue, false, true), ResolveAction::Download);
    assert_eq!(resolve_step(ResolveState::InCatalogue, false, false), ResolveAction::Refuse);
}

fn obj(members: Vec<(&str, CatalogueValue)>) -> CatalogueValue {
    CatalogueValue::Object(members.into_iter().map(|(k, v)| (k.to_string(), v)).collect())
}

fn text(s: &str) -> CatalogueValue {
    CatalogueValue::Text(s.to_string())
}

fn components() -> CatalogueValue {
    obj(vec![(
        "MorphologyDB",
        obj(vec![
            ("default", text("calima-msa-r13")),
            (
                "datasets",
                obj(vec![
                    ("calima-msa-r13", obj(vec![("path", text("morphology_db/calima-msa-r13"))])),
                    ("broken", obj(vec![("path", CatalogueValue::Other)])),
                ]),
            ),
        ]),
    )])
}

#[test]
fn catalogue_finds_dataset_destinations() {
    let c = components();
    assert_eq!(
        component_dataset_destination(&c, &["MorphologyDB"], None).unwrap(),
        "morphology_db/calima-msa-r13"
    );
    assert_eq!(
        component_dataset_destination(&c, &["MorphologyDB"], Some("calima-msa-r13")).unwrap(),
        "morphology_db/calima-msa-r13"
    );
    assert_eq!(
        component_dataset_destination(&c, &["DisambigMLE"], None),
        Err(CatalogueError::ComponentNotFound)
    );
    assert_eq!(
        component_dataset_destination(&c, &["MorphologyDB"], Some("broken")),
        Err(CatalogueError::DatasetNotFound)
    );
    assert_eq!(component_dataset_destination(&c, &[], None), Err(CatalogueError::NoDatasets));
    let no_default = obj(vec![("X", obj(vec![("datasets", obj(vec![]))]))]);
    assert_eq!(
        component_dataset_destination(&no_default, &["X"], None),
        Err(CatalogueError::NoDefaultDataset)
    );
}

#[test]
fn packages_are_found_by_destination() {
    let dests = vec![None, Some("a".to_string()), Some("b".to_string()), Some("a".to_string())];
    assert_eq!(package_for_destination(&dests, "a"), Some(1));
    assert_eq!(package_for_destination(&dests, "b"), Some(2));
    assert_eq!(package_for_destination(&dests, "c"), None);
}
