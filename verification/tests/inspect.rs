use osfragment_assemble::fragment::{
    Fragment, FragmentConflicts, FragmentName, FragmentPackages, FragmentProvides,
};
use osfragment_assemble::inspect::{
    collect_display_paths, local_mount_section, registry_mount_section, run_inspect, InspectTarget,
    LocalFragment,
};
use osfragment_assemble::loader::LoadedFragment;
use osfragment_assemble::manifest::FragmentSource;
use osfragment_assemble::mount::{mount_annotation_drift, MountPoint, MOUNT_SECTION_NOTE};
use osfragment_assemble::repos::RepoFiles;

fn strings(list: &[&str]) -> Vec<String> {
    list.iter().map(|s| s.to_string()).collect()
}

fn test_fragment(name: &str) -> Fragment {
    Fragment {
        name: FragmentName::new(name).expect("valid fragment name"),
        version: "1.0".into(),
        description: "test".into(),
        vendor: None,
        provides: FragmentProvides { repos: vec![] },
        packages: FragmentPackages { required: vec![] },
        conflicts: FragmentConflicts { fragments: vec![] },
    }
}

fn test_loaded_fragment(name: &str) -> LoadedFragment {
    LoadedFragment {
        fragment: test_fragment(name),
        tree_paths: vec![],
        hook_paths: vec![],
        source: FragmentSource::Registry { image_ref: "test/placeholder:latest".to_string() },
        resolved_digest: None,
        manifest_index: 0,
        repo_file_contents: RepoFiles::new(),
        mount_points: vec![],
        has_mount_dir: false,
        drift_warning: None,
    }
}

fn local(hooks: &[&str], entrypoint_mode: Option<u32>) -> LocalFragment {
    LocalFragment {
        fragment: test_fragment("nvidia-driver"),
        tree: vec![],
        hooks: strings(hooks),
        mounts: vec![],
        entrypoint_mode,
        has_mount_dir: false,
    }
}

#[test]
fn registry_inspect_notices_an_empty_mount_directory() {
    let mut loaded = test_loaded_fragment("rhel-entitlement");
    loaded.has_mount_dir = true;

    let section = registry_mount_section(&loaded);
    assert!(section.targets.is_empty());
    assert!(
        section.notice.is_some(),
        "an empty mount/ is a notice on the registry path too"
    );
    assert!(section.drift.is_none());
}

#[test]
fn registry_inspect_surfaces_drift_from_loaded_evidence() {
    let mut loaded = test_loaded_fragment("rhel-entitlement");
    loaded.has_mount_dir = true;
    loaded.mount_points = vec![MountPoint::from_target("/etc/rhsm").unwrap()];
    let annotated = vec![MountPoint::from_target("/etc/pki/entitlement").unwrap()];
    loaded.drift_warning = mount_annotation_drift(
        loaded.fragment.name.as_str(),
        &annotated,
        &loaded.mount_points,
    );

    let section = registry_mount_section(&loaded);
    assert_eq!(section.targets, vec!["/etc/rhsm".to_string()]);
    assert!(section.notice.is_none());
    assert_eq!(
        section.drift, loaded.drift_warning,
        "the section must surface the loader's carried warning verbatim"
    );
}

#[test]
fn registry_inspect_section_is_quiet_when_evidence_carries_nothing() {
    let mut loaded = test_loaded_fragment("epel");
    loaded.mount_points = vec![MountPoint::from_target("/etc/rhsm").unwrap()];
    loaded.has_mount_dir = true;

    let section = registry_mount_section(&loaded);
    assert_eq!(section.targets, vec!["/etc/rhsm".to_string()]);
    assert!(section.notice.is_none(), "mount/ carries files, no notice");
    assert!(section.drift.is_none(), "no drift_warning was carried");
}

#[test]
fn local_inspect_derives_the_targets_generation_will_use() {
    let section = local_mount_section(
        &strings(&["etc/pki/entitlement/cert.pem", "etc/pki/entitlement/key.pem"]),
        true,
        "rhel-entitlement",
    )
    .expect("a fragment directory with mount/ content derives targets");
    assert_eq!(
        section.targets,
        vec!["/etc/pki/entitlement".to_string()],
        "two files in one directory derive one target"
    );
    assert!(section.notice.is_none());
    assert!(
        section.drift.is_none(),
        "the local-dir path reads no registry annotation to drift against"
    );
}

#[test]
fn local_inspect_notices_an_empty_mount_directory() {
    let section = local_mount_section(&[], true, "rhel-entitlement").unwrap();
    assert!(section.targets.is_empty());
    assert!(
        section.notice.is_some(),
        "an empty mount/ is almost always an authoring mistake"
    );
}

#[test]
fn a_fragment_without_mount_has_no_section() {
    let section = local_mount_section(&[], false, "rhel-entitlement").unwrap();
    assert!(section.targets.is_empty());
    assert!(section.notice.is_none());
}

#[test]
fn local_hooks_without_entrypoint_are_rejected() {
    let err = run_inspect(&InspectTarget::Directory(local(&["hooks/other.sh"], None))).unwrap_err();
    assert!(
        err.contains("nvidia-driver") && err.contains("no executable hooks/entrypoint"),
        "local inspect must raise the same error as the registry path, got: {err}"
    );
}

/// Hook files count at any depth, so a fragment whose hooks/ holds only a
/// nested helper still needs an entrypoint.
#[test]
fn local_nested_hook_file_still_requires_an_entrypoint() {
    let err =
        run_inspect(&InspectTarget::Directory(local(&["hooks/lib/helper.sh"], None))).unwrap_err();
    assert!(
        err.contains("no executable hooks/entrypoint"),
        "a nested hook file must still require an entrypoint, got: {err}"
    );
}

#[test]
fn local_non_executable_entrypoint_is_rejected() {
    let err = run_inspect(&InspectTarget::Directory(local(&["hooks/entrypoint"], Some(0o100644))))
        .unwrap_err();
    assert!(
        err.contains("hooks/entrypoint is not executable") && err.contains("chmod +x"),
        "local inspect must raise the mode message, got: {err}"
    );
}

#[test]
fn local_entrypoint_with_support_files_is_accepted() {
    let target = InspectTarget::Directory(local(
        &["hooks/lib/helper.sh", "hooks/entrypoint"],
        Some(0o100755),
    ));
    assert!(run_inspect(&target).is_ok());
}

#[test]
fn a_local_file_at_the_top_of_mount_is_rejected() {
    let mut target = local(&[], None);
    target.mounts = strings(&["mount/cert.pem"]);
    target.has_mount_dir = true;
    let err = run_inspect(&InspectTarget::Directory(target)).unwrap_err();
    assert!(err.contains("mount/cert.pem") && err.contains("onto /"), "{err}");
}

#[test]
fn display_paths_are_relative_and_sorted() {
    assert_eq!(
        collect_display_paths(
            &strings(&["tree/usr/b", "tree/etc/z", "tree/etc-x", "tree/etc/a"]),
            "tree"
        ),
        vec!["etc-x", "etc/a", "etc/z", "usr/b"]
    );
    assert_eq!(collect_display_paths(&strings(&["other/x"]), "tree"), vec!["other/x"]);
}

#[test]
fn a_local_inspection_prints_every_section() {
    let mut target = local(&["hooks/entrypoint"], Some(0o755));
    target.fragment.vendor = Some("NVIDIA".into());
    target.fragment.provides.repos = strings(&["cuda", "nvidia"]);
    target.fragment.packages.required = strings(&["driver"]);
    target.tree = strings(&["tree/etc/b", "tree/etc/a"]);
    target.mounts = strings(&["mount/etc/rhsm/x"]);
    target.has_mount_dir = true;
    let shown = run_inspect(&InspectTarget::Directory(target)).unwrap();
    assert_eq!(
        shown.stdout,
        vec![
            "Fragment: nvidia-driver v1.0",
            "Vendor:   NVIDIA",
            "Repos:    cuda, nvidia",
            "Packages: driver",
            "",
            "tree/",
            "  etc/a",
            "  etc/b",
            "",
            "mount/",
            "  /etc/rhsm",
            MOUNT_SECTION_NOTE,
            "",
            "hooks/",
            "  entrypoint",
        ]
    );
    assert!(shown.stderr.is_empty());
}

#[test]
fn a_registry_inspection_keeps_diagnostics_on_stderr() {
    let mut loaded = test_loaded_fragment("epel");
    loaded.tree_paths = strings(&["fragment.toml", "tree/etc/x", "hooks/entrypoint"]);
    loaded.has_mount_dir = true;
    loaded.drift_warning = Some("drifted".into());
    let shown = run_inspect(&InspectTarget::Registry(loaded)).unwrap();
    assert_eq!(
        shown.stdout,
        vec!["Fragment: epel v1.0", "", "tree/", "  etc/x", "", "hooks/ (none)"]
    );
    assert_eq!(shown.stderr.len(), 2);
    assert!(shown.stderr[0].starts_with("notice: fragment 'epel'"));
    assert_eq!(shown.stderr[1], "drifted");
}
