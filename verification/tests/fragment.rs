use osfragment_assemble::fragment::{
    fragment_from_inner, FragmentConflicts, FragmentInner, FragmentName, FragmentPackages,
    FragmentProvides, MAX_FRAGMENT_NAME_LEN,
};
use osfragment_assemble::path::{join_path, parent, path_components};

/// Every path-unsafe name has to be refused here, because nothing downstream
/// rechecks. The rejected list leads with the traversal and separator vectors.
#[test]
fn fragment_name_grammar() {
    let max_len = "a".repeat(MAX_FRAGMENT_NAME_LEN);
    let too_long = "a".repeat(MAX_FRAGMENT_NAME_LEN + 1);

    let accepted = [
        "epel",
        "cis-hardening",
        "nvidia-driver-run",
        "node_exporter",
        "postgresql17",
        "postgres.17",
        "a",
        "7",
        max_len.as_str(),
    ];
    let rejected = [
        // Traversal.
        "..",
        "../evil",
        "../../escape",
        "fragment/../../etc",
        // Path separators.
        "a/b",
        "epel/",
        "/epel",
        "a\\b",
        // Absolute paths.
        "/",
        "/etc/passwd",
        // Empty and whitespace.
        "",
        " ",
        "   ",
        "epel fragment",
        "epel\n",
        "\tepel",
        // Current directory and hidden names.
        ".",
        "./epel",
        ".hidden",
        // Leading and trailing separators.
        "-epel",
        "epel-",
        "_epel",
        "epel.",
        // Character set.
        "EPEL",
        "Epel",
        "naive\u{301}",
        "epel\0",
        // Length.
        too_long.as_str(),
    ];

    for name in accepted {
        assert!(
            FragmentName::new(name).is_ok(),
            "'{}' must be accepted",
            name.escape_debug()
        );
    }
    for name in rejected {
        assert!(
            FragmentName::new(name).is_err(),
            "'{}' must be rejected",
            name.escape_debug()
        );
    }
}

/// A validated name is exactly one path component, so joining it onto a
/// directory yields a direct child of that directory.
#[test]
fn a_validated_name_is_a_single_path_component() {
    for name in ["epel", "cis-hardening", "postgres.17", "node_exporter"] {
        let validated = FragmentName::new(name).unwrap();
        let joined = join_path("fragments", validated.as_str());
        assert_eq!(
            path_components(&joined).len(),
            2,
            "{} did not stay a single component",
            joined
        );
        assert_eq!(parent(&joined).as_deref(), Some("fragments"));
        assert_eq!(
            std::path::Path::new("fragments").join(name).components().count(),
            2
        );
    }
}

fn inner(name: &str) -> FragmentInner {
    FragmentInner {
        name: name.to_string(),
        version: "1".to_string(),
        description: "traversal in the name".to_string(),
        vendor: Some("acme".to_string()),
        provides: FragmentProvides { repos: vec!["r".to_string()] },
        packages: FragmentPackages { required: vec!["p".to_string()] },
        conflicts: FragmentConflicts { fragments: vec!["c".to_string()] },
    }
}

/// The name arriving from a fragment's own metadata is validated, so an
/// unsafe one never reaches a caller at all.
#[test]
fn parse_rejects_a_path_unsafe_name() {
    let err = fragment_from_inner(inner("../../escape")).unwrap_err().message();
    assert!(
        err.contains("invalid fragment name") && err.contains("../../escape"),
        "error must name the offending value, got: {err}"
    );
}

#[test]
fn a_refused_name_is_shown_escaped() {
    let err = FragmentName::new("a\nb").unwrap_err().message();
    assert!(err.starts_with("invalid fragment name 'a\\nb': "), "{err}");
}

#[test]
fn metadata_is_carried_over_unchanged() {
    let fragment = fragment_from_inner(inner("epel")).unwrap();
    assert_eq!(fragment.name.as_str(), "epel");
    assert_eq!(fragment.version, "1");
    assert_eq!(fragment.description, "traversal in the name");
    assert_eq!(fragment.vendor.as_deref(), Some("acme"));
    assert_eq!(fragment.provides.repos, vec!["r"]);
    assert_eq!(fragment.packages.required, vec!["p"]);
    assert_eq!(fragment.conflicts.fragments, vec!["c"]);
    assert_eq!(fragment.name.clone().as_str(), "epel");
}
