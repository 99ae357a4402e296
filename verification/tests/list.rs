use osfragment_assemble::fragment::{
    Fragment, FragmentConflicts, FragmentName, FragmentPackages, FragmentProvides,
};
use osfragment_assemble::list::{digest_short, fragment_lines, mount_line, note_line, run_list};
use osfragment_assemble::loader::LoadedFragment;
use osfragment_assemble::manifest::{FragmentSource, Manifest, ManifestFragment};
use osfragment_assemble::mount::{derive_mount_points, MountPoint, MOUNT_SECTION_NOTE};
use osfragment_assemble::repos::RepoFiles;

fn mount_points(files: &[&str]) -> Vec<MountPoint> {
    let files: Vec<String> = files.iter().map(|f| f.to_string()).collect();
    derive_mount_points("test", &files).expect("fixture derives")
}

#[test]
fn the_mount_line_lists_every_target_for_one_fragment() {
    let points = mount_points(&["etc/pki/entitlement/c.pem", "etc/rhsm/rhsm.conf"]);
    assert_eq!(
        mount_line(&points).as_deref(),
        Some("      mounts: /etc/pki/entitlement, /etc/rhsm")
    );
}

#[test]
fn a_fragment_without_mounts_gets_no_line() {
    assert!(mount_line(&[]).is_none());
}

fn listed_fragment(name: &str, digest: Option<&str>, mounts: &[&str]) -> LoadedFragment {
    LoadedFragment {
        fragment: Fragment {
            name: FragmentName::new(name).expect("valid fragment name"),
            version: "1.0".into(),
            description: "test".into(),
            vendor: None,
            provides: FragmentProvides { repos: vec![] },
            packages: FragmentPackages { required: vec![] },
            conflicts: FragmentConflicts { fragments: vec![] },
        },
        tree_paths: vec![],
        hook_paths: vec![],
        source: FragmentSource::Registry { image_ref: "test/placeholder:latest".to_string() },
        resolved_digest: digest.map(str::to_string),
        manifest_index: 0,
        repo_file_contents: RepoFiles::new(),
        mount_points: mount_points(mounts),
        has_mount_dir: !mounts.is_empty(),
        drift_warning: None,
    }
}

/// The mount line belongs to the fragment, not to one of the two table
/// widths, so it must follow the row in both.
#[test]
fn the_mount_line_follows_the_row_in_both_table_widths() {
    let mounting = listed_fragment("entitlement", None, &["etc/rhsm/rhsm.conf"]);

    for has_digests in [true, false] {
        let lines = fragment_lines(&mounting, "vim", has_digests);
        assert_eq!(
            lines.len(),
            2,
            "row then mount line, has_digests={has_digests}"
        );
        assert!(
            lines[0].contains("entitlement"),
            "the row comes first: {lines:?}"
        );
        assert_eq!(
            lines[1], "      mounts: /etc/rhsm",
            "the mount line comes second, has_digests={has_digests}"
        );
    }
}

#[test]
fn a_mountless_fragment_contributes_only_its_row_in_both_table_widths() {
    let plain = listed_fragment("epel", Some("sha256:abcdef0123456789"), &[]);

    for has_digests in [true, false] {
        let lines = fragment_lines(&plain, "vim", has_digests);
        assert_eq!(lines.len(), 1, "no mount line, has_digests={has_digests}");
    }
}

#[test]
fn the_digest_column_appears_only_in_the_wide_row() {
    let pinned = listed_fragment("epel", Some("sha256:abcdef0123456789aaaa"), &[]);

    assert!(fragment_lines(&pinned, "vim", true)[0].contains("sha256:abcdef012345..."));
    assert!(!fragment_lines(&pinned, "vim", false)[0].contains("sha256:"));
    assert!(
        fragment_lines(&listed_fragment("local", None, &[]), "vim", true)[0].contains("(local)"),
        "an unpinned fragment in a pinned listing still fills the column"
    );
}

/// The note is one line for the run, gated on the listing as a whole.
#[test]
fn the_closing_note_fires_once_for_a_listing_that_mounts_anything() {
    let mounting = listed_fragment("entitlement", None, &["etc/rhsm/rhsm.conf"]);
    let plain = listed_fragment("epel", None, &[]);

    assert_eq!(note_line(&[]), None, "an empty listing");
    assert_eq!(
        note_line(&[plain.clone(), plain.clone()]),
        None,
        "nothing in the listing mounts"
    );
    assert_eq!(
        note_line(&[plain.clone(), mounting.clone(), plain]),
        Some(MOUNT_SECTION_NOTE),
        "one mounting fragment among several is enough"
    );
    assert_eq!(
        note_line(&[mounting.clone(), mounting]),
        Some(MOUNT_SECTION_NOTE),
        "and two of them still produce the one note"
    );
}

#[test]
fn short_digests_keep_twelve_characters_of_the_hash() {
    assert_eq!(digest_short(Some("sha256:0123456789abcdef")), "sha256:0123456789ab...");
    assert_eq!(digest_short(Some("0123456789abcdef")), "sha256:0123456789ab...");
    assert_eq!(digest_short(Some("sha256:abc")), "sha256:abc...");
    assert_eq!(digest_short(None), "(local)");
}

#[test]
fn rows_fill_their_columns() {
    let pinned = listed_fragment("epel", Some("sha256:abcdef0123456789aaaa"), &[]);
    assert_eq!(
        fragment_lines(&pinned, "vim", true)[0],
        "  epel 1.0        sha256:abcdef012345... vim"
    );
    assert_eq!(fragment_lines(&pinned, "vim", false)[0], "  epel 1.0        vim");
}

fn manifest(packages: &[&[&str]]) -> Manifest {
    Manifest {
        base: "quay.io/test/base:1".into(),
        fragments: packages
            .iter()
            .map(|p| ManifestFragment {
                image: "quay.io/test/x:1".into(),
                packages: p.iter().map(|s| s.to_string()).collect(),
                mirror: None,
            })
            .collect(),
        source_path: "m.yaml".into(),
    }
}

#[test]
fn a_listing_without_digests_or_mounts() {
    let mut second = listed_fragment("nginx", None, &[]);
    second.manifest_index = 1;
    let lines = run_list(
        &manifest(&[&["htop", "tmux"], &[]]),
        &[listed_fragment("epel", None, &[]), second],
    );
    assert_eq!(
        lines,
        vec![
            "Manifest: m.yaml",
            "Base:     quay.io/test/base:1",
            "",
            "  NAME                 VERSION    PACKAGES",
            "  epel 1.0        htop, tmux",
            "  nginx 1.0        \u{2014}",
            "",
            "2 fragments",
        ]
    );
}

#[test]
fn a_listing_with_digests_and_mounts() {
    let lines = run_list(
        &manifest(&[&["vim"]]),
        &[listed_fragment("epel", Some("sha256:0123456789abcdef"), &["etc/rhsm/x"])],
    );
    assert_eq!(
        lines,
        vec![
            "Manifest: m.yaml",
            "Base:     quay.io/test/base:1",
            "",
            "  NAME                 VERSION    DIGEST               PACKAGES",
            "  epel 1.0        sha256:0123456789ab... vim",
            "      mounts: /etc/rhsm",
            "",
            "1 fragments",
            MOUNT_SECTION_NOTE,
        ]
    );
}
