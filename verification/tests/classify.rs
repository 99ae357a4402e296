use osfragment_assemble::classify::{
    base_type_override_note, capabilities_for_base_type, classify_base, Capability,
};
use osfragment_assemble::manifest::BaseType;

#[test]
fn bootc_type_yields_both_capabilities() {
    let caps = capabilities_for_base_type(BaseType::Bootc);
    assert!(caps.contains(&Capability::Bootc));
    assert!(caps.contains(&Capability::Systemd));
    assert_eq!(caps.len(), 2);
}

#[test]
fn container_type_yields_empty_set() {
    let caps = capabilities_for_base_type(BaseType::Container);
    assert!(caps.is_empty());
}

#[test]
fn manifest_override_bootc_yields_bootc_caps() {
    let caps = classify_base("nonexistent.invalid/image:1", Some(&BaseType::Bootc));
    assert!(caps.contains(&Capability::Bootc));
    assert!(caps.contains(&Capability::Systemd));
}

#[test]
fn manifest_override_container_yields_empty_set() {
    let caps = classify_base("nonexistent.invalid/image:1", Some(&BaseType::Container));
    assert!(caps.is_empty());
}

#[test]
fn no_override_defaults_to_bootc_without_touching_the_registry() {
    // The image is deliberately unresolvable: classification must not
    // depend on reaching it.
    let caps = classify_base("nonexistent.invalid/no-such-image:1", None);
    assert!(caps.contains(&Capability::Bootc));
    assert!(caps.contains(&Capability::Systemd));
}

#[test]
fn container_override_is_worth_reporting() {
    let note = base_type_override_note(Some(&BaseType::Container)).expect("expected a note");
    assert!(note.contains("container"));
}

#[test]
fn declared_bootc_matches_the_default_so_there_is_nothing_to_report() {
    assert!(base_type_override_note(Some(&BaseType::Bootc)).is_none());
}

#[test]
fn absent_base_type_reports_nothing() {
    assert!(base_type_override_note(None).is_none());
}
