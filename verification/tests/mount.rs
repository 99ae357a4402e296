use osfragment_assemble::fragment::FragmentName;
use osfragment_assemble::mount::{
    derive_mount_points, empty_mount_notice, generator_written_paths, mount_annotation_drift,
    MountMaterialization, MountPoint,
};

fn files(paths: &[&str]) -> Vec<String> {
    paths.iter().map(|p| p.to_string()).collect()
}

fn targets(points: &[MountPoint]) -> Vec<String> {
    points.iter().map(MountPoint::target).collect()
}

#[test]
fn derivation_collects_directories_and_prunes_nested_ones() {
    // (mount/ file paths, expected targets)
    let cases: &[(&[&str], &[&str])] = &[
        (
            &[
                "etc/pki/entitlement/cert.pem",
                "etc/pki/entitlement/key.pem",
            ],
            &["/etc/pki/entitlement"],
        ),
        // Two files in one directory tree collapse to the outer directory.
        (
            &["etc/rhsm/rhsm.conf", "etc/rhsm/ca/cert.pem"],
            &["/etc/rhsm"],
        ),
        // Unrelated locations stay separate.
        (
            &["etc/pki/entitlement/cert.pem", "etc/rhsm/rhsm.conf"],
            &["/etc/pki/entitlement", "/etc/rhsm"],
        ),
        // Sibling directories under a common parent that holds no file of
        // its own are both kept: neither is nested inside the other.
        (&["etc/a/one.pem", "etc/b/two.pem"], &["/etc/a", "/etc/b"]),
        // A name that merely shares a prefix is not nested.
        (
            &["etc/pki/one.pem", "etc/pkix/two.pem"],
            &["/etc/pki", "/etc/pkix"],
        ),
        // No files at all derives nothing.
        (&[], &[]),
    ];

    for (input, expected) in cases {
        let derived = derive_mount_points("test-fragment", &files(input))
            .unwrap_or_else(|e| panic!("{input:?} must derive, got: {}", e.message()));
        assert_eq!(targets(&derived), *expected, "input: {input:?}");
    }
}

/// Emission order is stable across runs: descending in, ascending out, and
/// two permutations of one set agree with each other.
#[test]
fn derivation_sorts_its_output_whatever_order_the_files_arrive_in() {
    let descending = files(&[
        "etc/rhsm/rhsm.conf",
        "etc/pkix/two.pem",
        "etc/pki/one.pem",
        "etc/a/one.pem",
    ]);
    let ascending = files(&[
        "etc/a/one.pem",
        "etc/pki/one.pem",
        "etc/pkix/two.pem",
        "etc/rhsm/rhsm.conf",
    ]);
    let expected = ["/etc/a", "/etc/pki", "/etc/pkix", "/etc/rhsm"];

    let from_descending = derive_mount_points("f", &descending).unwrap();
    assert_eq!(
        targets(&from_descending),
        expected,
        "reversed input must still come back sorted"
    );

    let from_ascending = derive_mount_points("f", &ascending).unwrap();
    assert_eq!(
        from_descending, from_ascending,
        "two orderings of one set of mount files must derive the same list"
    );
}

#[test]
fn a_file_directly_under_mount_is_a_derivation_error() {
    let err = derive_mount_points("rhel-entitlement", &files(&["cert.pem"]))
        .expect_err("a file at the top of mount/ would derive a mount onto /");
    let msg = err.message();
    assert!(
        msg.contains("rhel-entitlement"),
        "must name the fragment: {msg}"
    );
    assert!(msg.contains("cert.pem"), "must name the file: {msg}");
    assert!(msg.contains("onto /"), "must state the rule: {msg}");
    assert!(msg.contains("Move it"), "must give the fix: {msg}");
}

#[test]
fn render_forms_cover_every_emission_surface() {
    let point = derive_mount_points("f", &files(&["etc/pki/entitlement/cert.pem"])).unwrap();
    let point = &point[0];
    let name = FragmentName::new("rhel-entitlement").unwrap();

    assert_eq!(point.target(), "/etc/pki/entitlement");
    assert_eq!(point.layer_source(), "/fragment/mount/etc/pki/entitlement");
    assert_eq!(
        point.context_source(&name),
        "fragments/rhel-entitlement/mount/etc/pki/entitlement"
    );
}

#[test]
fn mount_flag_renders_the_option_skeleton_exactly() {
    let point = derive_mount_points("f", &files(&["etc/pki/entitlement/cert.pem"])).unwrap();
    let point = &point[0];
    let name = FragmentName::new("rhel-entitlement").unwrap();

    assert_eq!(
        point.mount_flag(
            Some("quay.io/acme/rhel-entitlement@sha256:d00d"),
            &point.layer_source()
        ),
        "--mount=type=bind,from=quay.io/acme/rhel-entitlement@sha256:d00d,\
         source=/fragment/mount/etc/pki/entitlement,target=/etc/pki/entitlement,ro,z"
    );
    assert_eq!(
        point.mount_flag(None, &point.context_source(&name)),
        "--mount=type=bind,source=fragments/rhel-entitlement/mount/etc/pki/entitlement,\
         target=/etc/pki/entitlement,ro,z"
    );
}

#[test]
fn from_target_accepts_absolute_paths_and_rejects_everything_else() {
    assert_eq!(
        MountPoint::from_target("/etc/pki/entitlement")
            .unwrap()
            .target(),
        "/etc/pki/entitlement"
    );
    for bad in ["etc/pki", "", "/", "/etc/../etc", "/etc/./pki"] {
        assert!(
            MountPoint::from_target(bad).is_err(),
            "'{bad}' must be rejected"
        );
    }
}

#[test]
fn a_refused_target_is_shown_escaped() {
    let err = MountPoint::from_target("/etc/\n/x/").unwrap_err().message();
    assert!(err.starts_with("mount target '/etc/\\n/x/' is not usable: "), "{err}");
}

#[test]
fn overlap_is_prefix_based_in_both_directions() {
    let outer = MountPoint::from_target("/etc/pki").unwrap();
    let inner = MountPoint::from_target("/etc/pki/entitlement").unwrap();
    let other = MountPoint::from_target("/etc/rhsm").unwrap();
    let lookalike = MountPoint::from_target("/etc/pkix").unwrap();

    assert!(outer.overlaps(&inner), "ancestor collides with descendant");
    assert!(inner.overlaps(&outer), "and the comparison is symmetric");
    assert!(outer.overlaps(&outer), "a target equals itself");
    assert!(!outer.overlaps(&other));
    assert!(
        !outer.overlaps(&lookalike),
        "prefix comparison is component-wise, not textual"
    );
}

#[test]
fn shadows_is_true_only_when_the_mount_contains_the_written_path() {
    let broad = MountPoint::from_target("/etc/pki").unwrap();
    let exact = MountPoint::from_target("/etc/pki/rpm-gpg").unwrap();
    let below = MountPoint::from_target("/etc/pki/rpm-gpg/extra").unwrap();
    let elsewhere = MountPoint::from_target("/etc/rhsm").unwrap();

    assert!(broad.shadows("/etc/pki/rpm-gpg"));
    assert!(exact.shadows("/etc/pki/rpm-gpg"));
    assert!(
        !below.shadows("/etc/pki/rpm-gpg"),
        "the generator writes files directly at that path, so a mount \
         below it hides nothing the generator wrote"
    );
    assert!(!elsewhere.shadows("/etc/pki/rpm-gpg"));
}

#[test]
fn a_mount_over_etc_shadows_every_path_the_package_phase_writes() {
    let etc = MountPoint::from_target("/etc").unwrap();
    let written = generator_written_paths();
    assert_eq!(
        written.iter().map(|w| w.path).collect::<Vec<_>>(),
        ["/etc/yum.repos.d", "/etc/pki/rpm-gpg"]
    );
    for w in &written {
        assert!(etc.shadows(w.path));
        assert_eq!(w.phase, "repo files");
    }
}

#[test]
fn empty_mount_notice_fires_only_for_a_present_but_fileless_directory() {
    let some = derive_mount_points("f", &files(&["etc/rhsm/rhsm.conf"])).unwrap();

    assert!(
        empty_mount_notice("f", false, &[]).is_none(),
        "no mount/ at all"
    );
    assert!(
        empty_mount_notice("f", true, &some).is_none(),
        "mount/ with files"
    );

    let notice = empty_mount_notice("rhel-entitlement", true, &[])
        .expect("a mount/ holding no files is almost always an authoring mistake");
    assert!(
        notice.contains("rhel-entitlement"),
        "must name the fragment: {notice}"
    );
}

#[test]
fn drift_warning_fires_only_when_annotation_and_layer_disagree() {
    let derived = derive_mount_points("f", &files(&["etc/rhsm/rhsm.conf"])).unwrap();
    let agreeing = vec![MountPoint::from_target("/etc/rhsm").unwrap()];
    let disagreeing = vec![MountPoint::from_target("/etc/pki/entitlement").unwrap()];

    assert!(mount_annotation_drift("f", &agreeing, &derived).is_none());

    let warning = mount_annotation_drift("rhel-entitlement", &disagreeing, &derived)
        .expect("disagreement is drift");
    assert!(warning.contains("rhel-entitlement"), "{warning}");
    assert!(
        warning.contains("/etc/pki/entitlement"),
        "names the annotated: {warning}"
    );
    assert!(
        warning.contains("/etc/rhsm"),
        "names the derived: {warning}"
    );
    assert!(
        warning.contains("authoritative"),
        "states which wins: {warning}"
    );
}

#[test]
fn drift_against_no_mounts_at_all_says_none() {
    let annotated = vec![MountPoint::from_target("/etc/rhsm").unwrap()];
    let warning = mount_annotation_drift("f", &annotated, &[]).unwrap();
    assert!(warning.contains("Annotated: /etc/rhsm. Derived from the layer: (none)."), "{warning}");
}

#[test]
fn materialization_policy_tracks_the_flag() {
    assert_eq!(
        MountMaterialization::from_flag(true),
        MountMaterialization::Write
    );
    assert_eq!(
        MountMaterialization::from_flag(false),
        MountMaterialization::Skip
    );
}

#[test]
fn derived_points_never_overlap_and_cover_every_file() {
    let input = files(&["a/b/c/x", "a/b/y", "a/bc/z", "d/e/f", "a/b/c/d/w", "d/e/f2"]);
    let points = derive_mount_points("f", &input).unwrap();
    assert_eq!(targets(&points), ["/a/b", "/a/bc", "/d/e"]);
    for (i, p) in points.iter().enumerate() {
        for (j, q) in points.iter().enumerate() {
            assert_eq!(p.overlaps(q), i == j);
            assert_eq!(q.overlaps(p), i == j);
        }
    }
    for file in &input {
        let file = format!("/{file}");
        assert!(points.iter().any(|p| p.shadows(&file)), "{file} is not covered");
    }
    for p in &points {
        assert_eq!(&MountPoint::from_target(&p.target()).unwrap(), p);
    }
}

#[test]
fn a_file_below_a_derived_directory_changes_nothing() {
    let before = derive_mount_points("f", &files(&["etc/pki/a", "opt/x/b"])).unwrap();
    for more in ["etc/pki/c", "etc/pki/deep/er/c", "opt/x/b2"] {
        let after = derive_mount_points("f", &files(&["etc/pki/a", "opt/x/b", more])).unwrap();
        assert_eq!(after, before, "{more}");
    }
}

#[test]
fn paths_that_spell_one_directory_differently_derive_one_point() {
    let points = derive_mount_points("f", &files(&["etc//pki/a", "etc/./pki/b"])).unwrap();
    assert_eq!(points.len(), 1);
    assert_eq!(points[0], MountPoint::from_target("/etc/pki").unwrap());
}

#[test]
fn a_file_outside_mount_is_a_derivation_error() {
    for stray in ["../etc/k.pem", "/etc/k.pem", "/k.pem", "etc/../../k.pem"] {
        let err = derive_mount_points("f", &files(&["etc/a/ok.pem", stray])).unwrap_err();
        assert_eq!(err.file, stray);
        let message = err.message();
        assert!(
            message.starts_with(&format!("fragment 'f': mount/{stray} does not lie below mount/.")),
            "{message}"
        );
    }
    let top = derive_mount_points("f", &files(&["./k.pem"])).unwrap_err();
    assert!(top.message().contains("./k.pem is a regular file directly under mount/"));
}

#[test]
fn derived_points_are_ordinary_however_files_are_written() {
    for written in ["etc/pki/k", "./etc/pki/k", "etc//pki/k", "etc/./pki//k", "etc/pki/.."] {
        let points = derive_mount_points("f", &files(&[written])).unwrap();
        assert_eq!(points.len(), 1, "{written}");
        assert_eq!(points[0].as_str(), "etc/pki", "{written}");
        assert_eq!(MountPoint::from_target(&points[0].target()).unwrap(), points[0]);
    }
}
