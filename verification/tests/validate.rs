use std::cell::Cell;

use osfragment_assemble::fragment::{
    Fragment, FragmentConflicts, FragmentName, FragmentPackages, FragmentProvides,
};
use osfragment_assemble::loader::LoadedFragment;
use osfragment_assemble::manifest::{FragmentSource, Manifest, ManifestFragment};
use osfragment_assemble::mount::{
    derive_mount_points, empty_mount_notice, mount_annotation_drift, MountPoint,
};
use osfragment_assemble::repos::RepoFiles;
use osfragment_assemble::validate::{
    check_conflicts, check_duplicate_names, check_mount_digest_pins, check_repo_conflicts,
    unpinned_mount_error, validate_composition,
};

fn test_fragment(name: &str, repos: Vec<&str>, conflicts: Vec<&str>) -> LoadedFragment {
    LoadedFragment {
        fragment: Fragment {
            name: FragmentName::new(name).expect("test fragment name must be valid"),
            version: "1.0".into(),
            description: "test".into(),
            vendor: None,
            provides: FragmentProvides { repos: repos.into_iter().map(String::from).collect() },
            packages: FragmentPackages { required: vec![] },
            conflicts: FragmentConflicts {
                fragments: conflicts.into_iter().map(String::from).collect(),
            },
        },
        tree_paths: vec![],
        hook_paths: vec![],
        source: FragmentSource::Registry { image_ref: "test/placeholder:latest".to_string() },
        resolved_digest: None,
        manifest_index: 0,
        repo_file_contents: RepoFiles::new(),
        mount_points: vec![],
        has_mount_dir: false,
        drift_warning: None,
    }
}

fn entry(image: &str) -> ManifestFragment {
    ManifestFragment { image: image.into(), packages: vec![], mirror: None }
}

fn manifest_of(entries: Vec<ManifestFragment>) -> Manifest {
    Manifest {
        base: "quay.io/test/base:1".into(),
        fragments: entries,
        source_path: "test-manifest.yaml".into(),
    }
}

fn never(_: &str) -> Option<String> {
    panic!("no lookup is due")
}

#[test]
fn no_conflicts_passes() {
    let frags = vec![
        test_fragment("a", vec!["repo-a"], vec![]),
        test_fragment("b", vec!["repo-b"], vec![]),
    ];
    assert!(check_conflicts(&frags).is_ok());
}

#[test]
fn declared_conflict_fails() {
    let frags = vec![
        test_fragment("a", vec![], vec!["b"]),
        test_fragment("b", vec![], vec![]),
    ];
    assert!(check_conflicts(&frags).is_err());
    assert_eq!(
        check_conflicts(&frags).unwrap_err(),
        "fragment 'a' declares a conflict with 'b', which is also in the manifest"
    );
}

#[test]
fn mutual_conflict_fails() {
    let frags = vec![
        test_fragment("a", vec![], vec!["b"]),
        test_fragment("b", vec![], vec!["a"]),
    ];
    assert!(check_conflicts(&frags).is_err());
}

/// Identical repo definitions are not an error and are not skipped.
#[test]
fn repo_same_id_identical_content_passes() {
    let frags = vec![
        test_fragment("epel-user1", vec!["epel"], vec![]),
        test_fragment("epel-user2", vec!["epel"], vec![]),
    ];
    assert!(check_repo_conflicts(&frags).is_ok());
}

#[test]
fn duplicate_fragment_names_fail() {
    let frags = vec![
        test_fragment("myapp", vec![], vec![]),
        test_fragment("myapp", vec![], vec![]),
    ];
    assert!(check_duplicate_names(&frags).is_err());
    assert_eq!(
        check_duplicate_names(&frags).unwrap_err(),
        "duplicate fragment name 'myapp' \u{2014} each fragment must have a unique name"
    );
    assert!(check_duplicate_names(&frags[..1]).is_ok());
}

#[test]
fn conflicting_repo_content_fails() {
    let mut frag_a = test_fragment("provider-a", vec!["shared-repo"], vec![]);
    frag_a.repo_file_contents.insert(
        "shared.repo".to_string(),
        "[shared]\nbaseurl=https://a.example.com/\n".to_string(),
    );
    let mut frag_b = test_fragment("provider-b", vec!["shared-repo"], vec![]);
    frag_b.repo_file_contents.insert(
        "shared.repo".to_string(),
        "[shared]\nbaseurl=https://b.example.com/\n".to_string(),
    );
    let result = check_repo_conflicts(&[frag_a, frag_b]);
    assert!(result.is_err());
    let err = result.unwrap_err();
    assert!(
        err.contains("conflicting definitions"),
        "expected 'conflicting definitions', got: {}",
        err
    );
    assert_eq!(
        err,
        "repo 'shared-repo' has conflicting definitions: fragment 'provider-a' and fragment 'provider-b' provide different .repo content for the same repo ID"
    );
}

#[test]
fn repo_files_agree_whatever_order_they_came_in() {
    let mut a = test_fragment("a", vec!["x"], vec![]);
    a.repo_file_contents.insert("1.repo".into(), "one".into());
    a.repo_file_contents.insert("2.repo".into(), "two".into());
    let mut b = test_fragment("b", vec!["y", "x"], vec![]);
    b.repo_file_contents.insert("2.repo".into(), "old".into());
    b.repo_file_contents.insert("1.repo".into(), "one".into());
    b.repo_file_contents.insert("2.repo".into(), "two".into());
    assert!(check_repo_conflicts(&[a.clone(), b.clone()]).is_ok());
    // Another file on one side is a disagreement on the shared ID.
    b.repo_file_contents.insert("3.repo".into(), "three".into());
    let err = check_repo_conflicts(&[a, b]).unwrap_err();
    assert!(err.starts_with("repo 'x' has conflicting definitions"), "{err}");
}

/// A fragment providing repos may also carry hooks and non-repo tree paths,
/// and composition validation has nothing to say about content mix.
#[test]
fn repos_provider_carrying_hooks_and_config_passes_validation() {
    let mut frag = test_fragment("mixed", vec!["mixed-repo"], vec![]);
    frag.tree_paths = vec![
        "tree/etc/yum.repos.d/mixed.repo".to_string(),
        "tree/usr/lib/sysctl.d/99-mixed.conf".to_string(),
    ];
    frag.hook_paths = vec!["entrypoint".to_string()];
    let manifest = manifest_of(vec![entry("quay.io/test/mixed:1.0")]);
    let report = validate_composition(&manifest, &[frag], never);
    assert!(report.outcome.is_ok());
    assert!(report.notices.is_empty());
}

/// A present-but-empty `mount/` is a notice, not a validation failure.
#[test]
fn composition_with_an_empty_mount_directory_still_validates() {
    let mut frag = test_fragment("mount-only", vec![], vec![]);
    frag.has_mount_dir = true;
    frag.mount_points = vec![];
    let manifest = manifest_of(vec![entry("quay.io/test/mount-only:1.0")]);
    let report = validate_composition(&manifest, &[frag.clone()], never);
    assert!(report.outcome.is_ok());
    let notice = empty_mount_notice(
        frag.fragment.name.as_str(),
        frag.has_mount_dir,
        &frag.mount_points,
    );
    assert!(
        notice.is_some(),
        "the evidence validate_composition reads must actually yield a notice"
    );
    assert_eq!(report.notices, vec![notice.unwrap()]);
}

/// A fragment carrying drift evidence still validates.
#[test]
fn composition_with_drift_evidence_still_validates() {
    let mut frag = test_fragment("drifted", vec![], vec![]);
    frag.has_mount_dir = true;
    frag.mount_points = vec![MountPoint::from_target("/etc/rhsm").unwrap()];
    let annotated = vec![MountPoint::from_target("/etc/pki/entitlement").unwrap()];
    frag.drift_warning =
        mount_annotation_drift(frag.fragment.name.as_str(), &annotated, &frag.mount_points);
    let manifest = manifest_of(vec![entry("quay.io/test/drifted@sha256:abc123")]);
    let report = validate_composition(&manifest, &[frag.clone()], never);
    assert!(report.outcome.is_ok());
    assert!(
        frag.drift_warning.is_some(),
        "the evidence validate_composition reads must actually carry a warning"
    );
    assert_eq!(report.notices, vec![frag.drift_warning.unwrap()]);
}

#[test]
fn the_first_failing_check_decides() {
    let a = test_fragment("a", vec![], vec!["a"]);
    let manifest = manifest_of(vec![entry("quay.io/test/a:1")]);
    let twice = validate_composition(&manifest, &[a.clone(), a.clone()], never);
    assert!(twice.outcome.unwrap_err().starts_with("duplicate fragment name 'a'"));
    let once = validate_composition(&manifest, &[a], never);
    assert!(once.outcome.unwrap_err().starts_with("fragment 'a' declares a conflict"));
}

const TEST_MOUNT_DIGEST: &str = "sha256:abc123";

fn mount_fragment(name: &str, image: &str) -> (LoadedFragment, ManifestFragment) {
    let mut loaded = test_fragment(name, vec![], vec![]);
    loaded.source = FragmentSource::Registry { image_ref: image.to_string() };
    loaded.resolved_digest = Some(TEST_MOUNT_DIGEST.to_string());
    loaded.mount_points =
        derive_mount_points(name, &["etc/pki/entitlement/cert.pem".to_string()])
            .expect("fixture derives one mount point");
    (
        loaded,
        ManifestFragment {
            image: image.to_string(),
            packages: vec!["some-package".into()],
            mirror: None,
        },
    )
}

#[test]
fn an_unpinned_build_mount_reference_is_a_generation_error() {
    let (loaded, mf) = mount_fragment("rhel-entitlement", "quay.io/acme/rhel-entitlement:1.0");
    let manifest = manifest_of(vec![mf]);
    let err = check_mount_digest_pins(&manifest, &[loaded], never)
        .expect_err("a movable tag on mount material is an invisible substitution point");

    assert!(
        err.contains("rhel-entitlement"),
        "names the fragment: {err}"
    );
    assert!(
        err.contains("image: quay.io/acme/rhel-entitlement@sha256:abc123"),
        "prints the corrected image: line with the resolved digest filled in: {err}"
    );
    assert!(
        !err.contains("@sha256:..."),
        "no placeholder to fill in when the tool is holding the digest: {err}"
    );
}

#[test]
fn the_unpinned_error_keeps_the_placeholder_when_no_digest_resolved() {
    let err = unpinned_mount_error(
        "rhel-entitlement",
        "quay.io/acme/rhel-entitlement:1.0",
        None,
    );
    assert!(
        err.contains("image: quay.io/acme/rhel-entitlement@sha256:..."),
        "got: {err}"
    );
    assert!(
        err.contains("skopeo inspect"),
        "shows how to obtain a digest: {err}"
    );
    assert!(
        err.ends_with(
            "@sha256:...\nObtain the digest with:\n    skopeo inspect --format '{{.Digest}}' docker://quay.io/acme/rhel-entitlement:1.0"
        ),
        "{err}"
    );
}

/// A failing digest lookup still surfaces the same unpinned-reference error
/// with its placeholder, never a distinct "lookup failed" error.
#[test]
fn a_failing_resolver_still_yields_the_unpinned_placeholder_error() {
    let (mut loaded, mf) = mount_fragment("rhel-entitlement", "quay.io/acme/rhel-entitlement:1.0");
    loaded.resolved_digest = None; // force the fallback to the injected resolver
    let manifest = manifest_of(vec![mf]);

    let err = check_mount_digest_pins(&manifest, &[loaded], |_: &str| None)
        .expect_err("an unpinned reference is still an error when digest resolution fails");

    assert!(
        err.contains("image: quay.io/acme/rhel-entitlement@sha256:..."),
        "keeps the placeholder when resolution failed: {err}"
    );
    assert!(
        err.contains("skopeo inspect"),
        "shows how to obtain a digest: {err}"
    );
    assert!(
        !err.contains("lookup failed"),
        "must not leak resolve_digest's own error text as a different error: {err}"
    );
}

/// Symmetric positive: a resolver that succeeds fills in the digest it found.
#[test]
fn a_succeeding_resolver_fills_in_the_digest_it_finds() {
    let (mut loaded, mf) = mount_fragment("rhel-entitlement", "quay.io/acme/rhel-entitlement:1.0");
    loaded.resolved_digest = None; // force the fallback to the injected resolver
    let manifest = manifest_of(vec![mf]);

    let asked = Cell::new(0);
    let err = check_mount_digest_pins(&manifest, &[loaded], |declared: &str| {
        asked.set(asked.get() + 1);
        assert_eq!(declared, "quay.io/acme/rhel-entitlement:1.0");
        Some("sha256:def456".to_string())
    })
    .expect_err("still unpinned in the manifest regardless of what the resolver found");

    assert!(
        err.contains("image: quay.io/acme/rhel-entitlement@sha256:def456"),
        "prints the digest the injected resolver returned: {err}"
    );
    assert_eq!(asked.get(), 1);
}

#[test]
fn a_pinned_build_mount_reference_passes() {
    let (loaded, mf) = mount_fragment(
        "rhel-entitlement",
        "quay.io/acme/rhel-entitlement@sha256:abc123",
    );
    let manifest = manifest_of(vec![mf]);
    assert!(check_mount_digest_pins(&manifest, &[loaded], never).is_ok());
}

#[test]
fn a_fragment_without_mounts_needs_no_pin() {
    // Ordinary fragments pin only under --pin-digests, and this check must
    // not quietly extend to them.
    let loaded = test_fragment("epel", vec!["epel"], vec![]);
    let manifest = manifest_of(vec![entry("quay.io/acme/epel:10")]);
    assert!(check_mount_digest_pins(&manifest, &[loaded], never).is_ok());
}
