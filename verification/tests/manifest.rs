use osfragment_assemble::manifest::{
    manifest_from_yaml, FragmentSource, ManifestError, ManifestFragment, ManifestYaml,
};

fn entry(image: &str) -> ManifestFragment {
    ManifestFragment { image: image.to_string(), packages: vec![], mirror: None }
}

fn raw(base: Option<&str>, images: &[&str]) -> ManifestYaml {
    ManifestYaml {
        api_version: "osfragment/v1alpha1".to_string(),
        kind: "Composition".to_string(),
        base: base.map(|b| b.to_string()),
        fragments: images.iter().map(|i| entry(i)).collect(),
    }
}

const BASE: &str = "registry.redhat.io/rhel10/rhel-bootc:10.0";

#[test]
fn parsed_manifest_records_its_source_path() {
    let manifest = manifest_from_yaml(
        raw(Some(BASE), &["quay.io/marrusl2/fragments/epel:10"]),
        "configs/edge-lab.yaml",
    )
    .unwrap();
    assert_eq!(manifest.source_path, "configs/edge-lab.yaml");
    assert_eq!(manifest.base, BASE);
    assert_eq!(manifest.fragments.len(), 1);
}

#[test]
fn resolve_registry_source() {
    let source = entry("quay.io/marrusl2/fragments/epel:10").resolve_source().unwrap();
    assert!(matches!(source, FragmentSource::Registry { .. }));
    let FragmentSource::Registry { image_ref } = source;
    assert_eq!(image_ref, "quay.io/marrusl2/fragments/epel:10");
}

#[test]
fn reject_dir_source() {
    let result = entry("dir:./examples/fragments/epel").resolve_source();
    assert!(result.is_err());
    let err_msg = result.unwrap_err().message();
    assert!(err_msg.contains("local directory sources"));
    assert!(err_msg.contains("not supported"));
}

#[test]
fn reject_missing_base() {
    let err = manifest_from_yaml(raw(None, &["quay.io/test:1"]), "test-manifest.yaml").unwrap_err();
    assert_eq!(err, ManifestError::MissingBase);
    assert!(err.message().contains("'base'"));
}

#[test]
fn reject_empty_fragments() {
    let err = manifest_from_yaml(raw(Some(BASE), &[]), "test-manifest.yaml").unwrap_err();
    assert_eq!(err, ManifestError::NoFragments);
    assert!(err.message().contains("at least one fragment"));
}
