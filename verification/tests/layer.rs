use osfragment_assemble::fragment::{
    fragment_from_inner, Fragment, FragmentConflicts, FragmentInner, FragmentPackages,
    FragmentProvides,
};
use osfragment_assemble::layer::{
    entry_kind, extract_fragment_toml_from_bytes, extract_repo_file_contents_from_bytes,
    extract_tree_paths_from_bytes, plan_fragment_payload, validate_tar_entry, EntryKind,
    FRAGMENT_TOML_PATH,
};
use osfragment_assemble::loader::{fragment_from_layers, LayeredMetadata};
use osfragment_assemble::mount::{MountMaterialization, MountPoint};

/// Regular files at 0o644, the default every path-only fixture wants.
fn create_test_tarball(entries: &[(&str, &[u8])]) -> Vec<u8> {
    let raw: Vec<RawEntry> = entries
        .iter()
        .map(|&(path, data)| RawEntry {
            path: path.as_bytes(),
            data,
            mode: 0o644,
            entry_type: tar::EntryType::Regular,
        })
        .collect();
    create_test_tarball_with_modes(&raw)
}

/// A tar entry with an explicit mode and entry type. The path is bytes,
/// because a tar member name is arbitrary bytes on Unix.
struct RawEntry<'a> {
    path: &'a [u8],
    data: &'a [u8],
    mode: u32,
    entry_type: tar::EntryType,
}

/// The old-style ustar header's name field.
const USTAR_NAME_FIELD_BYTES: usize = 100;

/// Writes each entry's path verbatim into the raw header name field rather
/// than going through `tar::Header::set_path`, which normalizes a leading
/// `./` away and rejects both `..` components and absolute paths.
fn create_test_tarball_with_modes(entries: &[RawEntry]) -> Vec<u8> {
    let mut buf = Vec::new();
    {
        let enc = flate2::write::GzEncoder::new(&mut buf, flate2::Compression::default());
        let mut tar = tar::Builder::new(enc);
        for entry in entries {
            assert!(entry.path.len() <= USTAR_NAME_FIELD_BYTES, "fixture path is too long");
            let mut header = tar::Header::new_gnu();
            header.set_entry_type(entry.entry_type);
            let name = &mut header.as_old_mut().name;
            name.fill(0);
            name[..entry.path.len()].copy_from_slice(entry.path);
            header.set_size(entry.data.len() as u64);
            header.set_mode(entry.mode);
            header.set_cksum();
            tar.append(&header, entry.data).unwrap();
        }
        tar.into_inner().unwrap().finish().unwrap();
    }
    buf
}

fn table_text(table: &toml::Table, key: &str) -> Result<String, String> {
    table
        .get(key)
        .and_then(|v| v.as_str())
        .map(|s| s.to_string())
        .ok_or_else(|| format!("missing {key}"))
}

fn parse(content: &str) -> Result<Fragment, String> {
    let document: toml::Table = content.parse().map_err(|e: toml::de::Error| e.to_string())?;
    let table = document
        .get("fragment")
        .and_then(|v| v.as_table())
        .ok_or_else(|| "missing fragment".to_string())?;
    fragment_from_inner(FragmentInner {
        name: table_text(table, "name")?,
        version: table_text(table, "version")?,
        description: table_text(table, "description")?,
        vendor: None,
        provides: FragmentProvides { repos: vec![] },
        packages: FragmentPackages { required: vec![] },
        conflicts: FragmentConflicts { fragments: vec![] },
    })
    .map_err(|e| e.message())
}

fn from_layers(layers: &[Vec<u8>]) -> Result<LayeredMetadata, String> {
    fragment_from_layers(layers, parse)
}

#[test]
fn extract_toml_from_valid_layer() {
    let toml_content = br#"[fragment]
name = "test"
version = "1.0"
description = "test fragment"
"#;
    let tarball = create_test_tarball(&[("fragment/fragment.toml", toml_content)]);
    let result = extract_fragment_toml_from_bytes(&tarball).unwrap();
    assert!(result.contains("name = \"test\""));
    assert_eq!(result.as_bytes(), toml_content);
}

#[test]
fn reject_traversal_path() {
    let tarball = create_test_tarball(&[
        ("../etc/passwd", b"evil"),
        (
            "fragment/fragment.toml",
            b"[fragment]\nname=\"x\"\nversion=\"1\"\ndescription=\"x\"",
        ),
    ]);
    // Fail-closed: traversal entries cause immediate failure
    let result = extract_fragment_toml_from_bytes(&tarball);
    assert!(result.is_err());
    assert!(result.unwrap_err().contains("traversal"));
}

#[test]
fn reject_oversized_toml() {
    let huge = vec![b'x'; 128 * 1024]; // 128KB > 64KB limit
    let tarball = create_test_tarball(&[("fragment/fragment.toml", &huge)]);
    let result = extract_fragment_toml_from_bytes(&tarball);
    assert!(result.is_err());
    assert_eq!(
        result.unwrap_err(),
        "fragment.toml is 131072 bytes, exceeds 65536 byte limit"
    );
}

#[test]
fn a_toml_of_exactly_the_limit_is_read() {
    let largest = vec![b'x'; 64 * 1024];
    let tarball = create_test_tarball(&[("fragment/fragment.toml", &largest)]);
    assert_eq!(extract_fragment_toml_from_bytes(&tarball).unwrap().len(), 65536);
}

#[test]
fn reject_missing_toml() {
    let tarball = create_test_tarball(&[("fragment/tree/etc/foo.conf", b"data")]);
    let result = extract_fragment_toml_from_bytes(&tarball);
    assert!(result.is_err());
    assert_eq!(result.unwrap_err(), "fragment.toml not found in layer");
}

#[test]
fn reject_duplicate_toml_entries() {
    let tarball = create_test_tarball(&[
        (
            "fragment/fragment.toml",
            b"[fragment]\nname=\"a\"\nversion=\"1\"\ndescription=\"a\"",
        ),
        (
            "fragment/fragment.toml",
            b"[fragment]\nname=\"b\"\nversion=\"2\"\ndescription=\"b\"",
        ),
    ]);
    let result = extract_fragment_toml_from_bytes(&tarball);
    assert!(result.is_err());
    assert_eq!(result.unwrap_err(), "duplicate fragment.toml entries in layer");
}

#[test]
fn a_toml_that_is_not_text_is_an_error() {
    let tarball = create_test_tarball(&[("fragment/fragment.toml", b"\xff\xfe")]);
    let err = extract_fragment_toml_from_bytes(&tarball).unwrap_err();
    assert!(err.starts_with("reading fragment.toml from layer: "), "{err}");
}

#[test]
fn a_broken_archive_is_an_error() {
    assert!(extract_fragment_toml_from_bytes(b"not gzip")
        .unwrap_err()
        .starts_with("reading tar entry: "));
    assert!(extract_tree_paths_from_bytes(b"not gzip").is_err());
    assert!(extract_repo_file_contents_from_bytes(b"not gzip").is_err());
}

#[test]
fn validate_tar_entry_security_guards() {
    let cases = [
        ("fragment/fragment.toml", EntryKind::Regular, true, ""),
        ("fragment/tree/etc/foo.conf", EntryKind::Regular, true, ""),
        // Absolute path inside /fragment/ is allowed
        ("/fragment/tree/etc/foo.conf", EntryKind::Regular, true, ""),
        // Path traversal
        ("../etc/passwd", EntryKind::Regular, false, "traversal"),
        (
            "fragment/../../../etc/shadow",
            EntryKind::Regular,
            false,
            "traversal",
        ),
        // Absolute paths outside /fragment/
        ("/etc/passwd", EntryKind::Regular, false, "absolute path"),
        ("/usr/bin/evil", EntryKind::Regular, false, "absolute path"),
        // Symlinks and hardlinks
        (
            "fragment/tree/link",
            EntryKind::Symlink,
            false,
            "symlink or hardlink",
        ),
        (
            "fragment/tree/link",
            EntryKind::HardLink,
            false,
            "symlink or hardlink",
        ),
    ];
    for (path, kind, should_pass, expected_err) in &cases {
        let result = validate_tar_entry(path.as_bytes(), *kind);
        if *should_pass {
            assert!(
                result.is_ok(),
                "expected pass for path '{}': {:?}",
                path,
                result
            );
        } else {
            let err = result.unwrap_err();
            assert!(
                err.contains(expected_err),
                "path '{}': expected error containing '{}', got '{}'",
                path,
                expected_err,
                err
            );
        }
    }
}

/// The type bytes that the archive library writes for the kinds told apart.
#[test]
fn entry_kinds_follow_the_archive_library() {
    assert_eq!(entry_kind(tar::EntryType::Regular.as_byte()), EntryKind::Regular);
    assert_eq!(entry_kind(tar::EntryType::Link.as_byte()), EntryKind::HardLink);
    assert_eq!(entry_kind(tar::EntryType::Symlink.as_byte()), EntryKind::Symlink);
    assert_eq!(entry_kind(tar::EntryType::Directory.as_byte()), EntryKind::Directory);
    assert_eq!(entry_kind(tar::EntryType::Fifo.as_byte()), EntryKind::Other);
    assert_eq!(entry_kind(tar::EntryType::Continuous.as_byte()), EntryKind::Other);
}

/// The canonical form `validate_tar_entry` hands every matcher.
#[test]
fn validate_tar_entry_returns_a_canonical_relative_path() {
    let cases = [
        ("fragment/hooks/entrypoint", "fragment/hooks/entrypoint"),
        ("./fragment/hooks/entrypoint", "fragment/hooks/entrypoint"),
        ("/fragment/hooks/entrypoint", "fragment/hooks/entrypoint"),
        ("./fragment/tree/etc/app.conf", "fragment/tree/etc/app.conf"),
        ("/fragment/tree/", "fragment/tree"),
        ("fragment/./hooks/entrypoint", "fragment/hooks/entrypoint"),
    ];
    for (raw, expected) in cases {
        let normalized = validate_tar_entry(raw.as_bytes(), EntryKind::Regular)
            .unwrap_or_else(|e| panic!("{raw} must validate: {e}"));
        assert_eq!(normalized, expected, "{raw} normalized wrong");
        assert_eq!(
            validate_tar_entry(normalized.as_bytes(), EntryKind::Regular).unwrap(),
            normalized,
            "the canonical form is its own"
        );
    }
}

#[test]
fn extract_repo_contents_from_valid_layer() {
    let repo_content = b"[epel]\nname=EPEL\nbaseurl=https://example.com/epel/\n";
    let tarball =
        create_test_tarball(&[("fragment/tree/etc/yum.repos.d/epel.repo", repo_content)]);
    let result = extract_repo_file_contents_from_bytes(&tarball).unwrap();
    assert_eq!(result.len(), 1);
    assert!(result.contains_key("epel.repo"));
    assert!(result.get("epel.repo").unwrap().contains("[epel]"));
    assert_eq!(result.get("epel.repo").unwrap().as_bytes(), repo_content);
}

#[test]
fn the_last_repo_file_of_a_name_counts() {
    let tarball = create_test_tarball(&[
        ("fragment/tree/etc/yum.repos.d/epel.repo", b"first"),
        ("fragment/tree/etc/yum.repos.d/epel.repo.bak", b"ignored"),
        ("fragment/tree/opt/yum.repos.d/epel.repo", b"second"),
    ]);
    let result = extract_repo_file_contents_from_bytes(&tarball).unwrap();
    assert_eq!(result.len(), 1);
    assert_eq!(result.get("epel.repo"), Some("second"));
    assert_eq!(result.get("other.repo"), None);
}

#[test]
fn hooks_collected_regardless_of_extension() {
    let tarball = create_test_tarball(&[
        ("fragment/hooks/01-setup.sh", b"#!/bin/bash\necho setup"),
        ("fragment/hooks/02-config.bash", b"#!/bin/bash\necho config"),
        ("fragment/hooks/configure", b"#!/bin/sh\necho configure"),
        (
            "fragment/hooks/setup.py",
            b"#!/usr/bin/env python3\nprint('ok')",
        ),
        ("fragment/tree/etc/foo.conf", b"data"),
    ]);
    let listing = extract_tree_paths_from_bytes(&tarball).unwrap();
    let names =
        osfragment_assemble::loader::remap(&listing.paths, "fragment/hooks/", "fragment/hooks");
    assert_eq!(names.len(), 4);
    assert!(names.contains(&"01-setup.sh".to_string()));
    assert!(names.contains(&"02-config.bash".to_string()));
    assert!(names.contains(&"configure".to_string()));
    assert!(names.contains(&"setup.py".to_string()));
}

#[test]
fn payload_extraction_rejects_traversal_like_other_extractors() {
    let tarball = create_test_tarball(&[
        ("../etc/passwd", b"evil"),
        ("fragment/tree/etc/foo.conf", b"data"),
    ]);
    let plan = plan_fragment_payload(&tarball, "out", MountMaterialization::Skip).unwrap();
    assert!(plan.writes.is_empty());
    assert!(plan.failure.unwrap().contains("traversal"));
}

/// Rejecting keeps the guarantee that what the fragment author wrote is what
/// lands on disk.
#[test]
fn non_utf8_entry_names_are_rejected_rather_than_materialized_lossily() {
    // Two distinct names differing only in bytes that are not valid UTF-8.
    let tarball = create_test_tarball_with_modes(&[
        RawEntry {
            path: b"fragment/tree/etc/a\xff.conf",
            data: b"first",
            mode: 0o644,
            entry_type: tar::EntryType::Regular,
        },
        RawEntry {
            path: b"fragment/tree/etc/a\xfe.conf",
            data: b"second",
            mode: 0o644,
            entry_type: tar::EntryType::Regular,
        },
    ]);

    let plan = plan_fragment_payload(&tarball, "out", MountMaterialization::Skip).unwrap();
    assert!(plan.writes.is_empty());
    let err = plan.failure.expect("a non-UTF-8 entry name must be rejected");
    assert!(
        err.contains("non-UTF-8"),
        "wrong error for a non-UTF-8 entry name: {err}"
    );
    assert_eq!(
        err,
        "non-UTF-8 entry name rejected in fragment layer: fragment/tree/etc/a\u{fffd}.conf"
    );
}

#[test]
fn the_payload_lands_below_its_directory() {
    let tarball = create_test_tarball_with_modes(&[
        RawEntry {
            path: b"fragment/tree",
            data: b"",
            mode: 0o755,
            entry_type: tar::EntryType::Directory,
        },
        hook_entry("./fragment/tree/etc/app.conf", 0o644),
        hook_entry("fragment/fragment.toml", 0o644),
        hook_entry("/fragment/hooks/entrypoint", 0o755),
        hook_entry("fragment/mount/etc/rhsm/x", 0o600),
        RawEntry {
            path: b"fragment/tree/pipe",
            data: b"",
            mode: 0o644,
            entry_type: tar::EntryType::Fifo,
        },
    ]);
    let shown = |mounts| -> Vec<(usize, String, String)> {
        let plan = plan_fragment_payload(&tarball, "out/epel", mounts).unwrap();
        assert!(plan.failure.is_none());
        plan.writes
            .iter()
            .map(|w| (w.index, w.dest.clone(), w.parent.clone().unwrap()))
            .collect()
    };
    let written = |i: usize, dest: &str, parent: &str| (i, dest.to_string(), parent.to_string());
    let payload = vec![
        written(0, "out/epel/tree/", "out/epel"),
        written(1, "out/epel/tree/etc/app.conf", "out/epel/tree/etc"),
        written(3, "out/epel/hooks/entrypoint", "out/epel/hooks"),
    ];
    assert_eq!(shown(MountMaterialization::Skip), payload);
    let mut with_mounts = payload;
    with_mounts.push(written(4, "out/epel/mount/etc/rhsm/x", "out/epel/mount/etc/rhsm"));
    assert_eq!(shown(MountMaterialization::Write), with_mounts);
}

const TEST_FRAGMENT_TOML: &[u8] = br#"[fragment]
name = "nvidia-driver"
version = "1.0"
description = "test fragment"
"#;

/// A one-layer fragment carrying `fragment.toml` plus the given entries.
fn fragment_layers(entries: Vec<RawEntry>) -> Vec<Vec<u8>> {
    let mut all = vec![RawEntry {
        path: FRAGMENT_TOML_PATH.as_bytes(),
        data: TEST_FRAGMENT_TOML,
        mode: 0o644,
        entry_type: tar::EntryType::Regular,
    }];
    all.extend(entries);
    vec![create_test_tarball_with_modes(&all)]
}

fn hook_entry<'a>(path: &'a str, mode: u32) -> RawEntry<'a> {
    RawEntry {
        path: path.as_bytes(),
        data: b"#!/bin/sh\necho hook\n",
        mode,
        entry_type: tar::EntryType::Regular,
    }
}

#[test]
fn hooks_without_entrypoint_are_rejected() {
    let layers = fragment_layers(vec![hook_entry("fragment/hooks/other.sh", 0o755)]);
    let err = from_layers(&layers).unwrap_err();
    assert!(
        err.contains("nvidia-driver") && err.contains("no executable hooks/entrypoint"),
        "error must name the fragment and hooks/entrypoint, got: {err}"
    );
}

#[test]
fn non_executable_entrypoint_is_rejected() {
    let layers = fragment_layers(vec![hook_entry("fragment/hooks/entrypoint", 0o644)]);
    let err = from_layers(&layers).unwrap_err();
    assert!(
        err.contains("nvidia-driver")
            && err.contains("hooks/entrypoint is not executable")
            && err.contains("chmod +x"),
        "error must name the mode problem and its fix, got: {err}"
    );
}

#[test]
fn valid_hook_shapes_are_accepted() {
    let cases: Vec<(&str, Vec<RawEntry>)> = vec![
        (
            "zero hook files",
            vec![RawEntry {
                path: b"fragment/tree/etc/foo.conf",
                data: b"data",
                mode: 0o644,
                entry_type: tar::EntryType::Regular,
            }],
        ),
        (
            "entrypoint alone",
            vec![hook_entry("fragment/hooks/entrypoint", 0o755)],
        ),
        (
            "entrypoint alongside other files",
            vec![
                hook_entry("fragment/hooks/entrypoint", 0o755),
                hook_entry("fragment/hooks/nvidia.run", 0o755),
                hook_entry("fragment/hooks/README", 0o644),
            ],
        ),
        (
            "entrypoint alongside a subdirectory",
            vec![
                hook_entry("fragment/hooks/entrypoint", 0o755),
                RawEntry {
                    path: b"fragment/hooks/lib",
                    data: b"",
                    mode: 0o755,
                    entry_type: tar::EntryType::Directory,
                },
                hook_entry("fragment/hooks/lib/helper.sh", 0o644),
            ],
        ),
        (
            "entrypoint executable by group only",
            vec![hook_entry("fragment/hooks/entrypoint", 0o610)],
        ),
    ];

    for (label, entries) in cases {
        let result = from_layers(&fragment_layers(entries));
        assert!(result.is_ok(), "{label} must load: {:?}", result.err());
    }
}

/// `inspect` still displays every file under `hooks/`, including the ones the
/// tool will never invoke.
#[test]
fn support_files_stay_in_the_hook_list() {
    let layers = fragment_layers(vec![
        hook_entry("fragment/hooks/entrypoint", 0o755),
        hook_entry("fragment/hooks/lib/helper.sh", 0o644),
    ]);
    let metadata = from_layers(&layers).unwrap();
    assert_eq!(metadata.hook_paths, vec!["entrypoint", "lib/helper.sh"]);
}

#[test]
fn nested_entrypoint_does_not_satisfy_the_rule() {
    let layers = fragment_layers(vec![hook_entry("fragment/hooks/lib/entrypoint", 0o755)]);
    let err = from_layers(&layers).unwrap_err();
    assert!(
        err.contains("no executable hooks/entrypoint"),
        "only hooks/entrypoint counts, got: {err}"
    );
}

#[test]
fn entrypoint_as_a_directory_is_rejected() {
    let layers = fragment_layers(vec![
        RawEntry {
            path: b"fragment/hooks/entrypoint",
            data: b"",
            mode: 0o755,
            entry_type: tar::EntryType::Directory,
        },
        hook_entry("fragment/hooks/entrypoint/real.sh", 0o755),
    ]);
    let err = from_layers(&layers).unwrap_err();
    assert!(
        err.contains("no executable hooks/entrypoint"),
        "a directory named entrypoint is not an entrypoint, got: {err}"
    );
}

/// An old-style fragment whose hooks were chained by filename order must fail
/// to load rather than run anything.
#[test]
fn old_style_chained_hooks_are_rejected() {
    let layers = fragment_layers(vec![
        hook_entry("fragment/hooks/01-setup.sh", 0o755),
        hook_entry("fragment/hooks/02-config.sh", 0o755),
    ]);
    let err = from_layers(&layers).unwrap_err();
    assert!(
        err.contains("no executable hooks/entrypoint"),
        "old-layout fragments must be rejected, not chained, got: {err}"
    );
}

/// The three forms a tar archive can carry the same member as.
const LAYER_PATH_PREFIXES: [&str; 3] = ["", "./", "/"];

#[test]
fn hook_detection_is_prefix_independent() {
    for prefix in LAYER_PATH_PREFIXES {
        let entrypoint = format!("{prefix}fragment/hooks/entrypoint");
        let helper = format!("{prefix}fragment/hooks/lib/helper.sh");

        // A non-executable entrypoint must be rejected in every form.
        let layers = fragment_layers(vec![hook_entry(&entrypoint, 0o644)]);
        let err = from_layers(&layers)
            .expect_err(&format!("prefix {prefix:?}: must be rejected"));
        assert!(
            err.contains("hooks/entrypoint is not executable"),
            "prefix {prefix:?}: wrong error: {err}"
        );

        // Hooks with no entrypoint at all must be rejected in every form.
        let layers = fragment_layers(vec![hook_entry(&helper, 0o644)]);
        let err = from_layers(&layers)
            .expect_err(&format!("prefix {prefix:?}: must be rejected"));
        assert!(
            err.contains("no executable hooks/entrypoint"),
            "prefix {prefix:?}: wrong error: {err}"
        );

        // A well-formed fragment must load, with hooks listed under the same
        // canonical names regardless of the form they arrived in.
        let layers = fragment_layers(vec![
            hook_entry(&entrypoint, 0o755),
            hook_entry(&helper, 0o644),
        ]);
        let metadata = from_layers(&layers)
            .unwrap_or_else(|e| panic!("prefix {prefix:?}: must load: {e}"));
        assert_eq!(
            metadata.hook_paths,
            vec!["entrypoint", "lib/helper.sh"],
            "prefix {prefix:?}: hook paths must be canonical"
        );
    }
}

#[test]
fn toml_and_tree_paths_are_prefix_independent() {
    for prefix in LAYER_PATH_PREFIXES {
        let toml_path = format!("{prefix}fragment/fragment.toml");
        let conf_path = format!("{prefix}fragment/tree/etc/app.conf");
        let repo_path = format!("{prefix}fragment/tree/etc/yum.repos.d/epel.repo");
        let layers = vec![create_test_tarball_with_modes(&[
            RawEntry {
                path: toml_path.as_bytes(),
                data: TEST_FRAGMENT_TOML,
                mode: 0o644,
                entry_type: tar::EntryType::Regular,
            },
            RawEntry {
                path: conf_path.as_bytes(),
                data: b"key=value\n",
                mode: 0o644,
                entry_type: tar::EntryType::Regular,
            },
            RawEntry {
                path: repo_path.as_bytes(),
                data: b"[epel]\nbaseurl=https://example.com/epel/\n",
                mode: 0o644,
                entry_type: tar::EntryType::Regular,
            },
        ])];

        let metadata = from_layers(&layers)
            .unwrap_or_else(|e| panic!("prefix {prefix:?}: must load: {e}"));
        assert_eq!(metadata.fragment.name.as_str(), "nvidia-driver");

        let mut tree = metadata.tree_paths.clone();
        tree.sort();
        // fragment.toml rides along in tree_paths (consumers filter on the
        // `tree/` prefix).
        assert_eq!(
            tree,
            vec![
                "fragment.toml",
                "tree/etc/app.conf",
                "tree/etc/yum.repos.d/epel.repo"
            ],
            "prefix {prefix:?}: tree paths must be canonical"
        );
        assert!(
            metadata.repo_file_contents.contains_key("epel.repo"),
            "prefix {prefix:?}: repo file contents must be collected"
        );
    }
}

/// What a load gives, in a form that two loads can be compared in.
fn shown(layers: &[Vec<u8>]) -> Option<(String, Vec<String>, Vec<String>, Vec<String>, String)> {
    let m = from_layers(layers).ok()?;
    let points = m.mount_points.iter().map(|p| p.target()).collect();
    let repo = m.repo_file_contents.get("epel.repo").unwrap_or("none").to_string();
    let name = m.fragment.name.as_str().to_string();
    Some((name, m.tree_paths, m.hook_paths, points, repo))
}

#[test]
fn a_load_is_the_same_in_every_spelling() {
    let spelled = |prefix: &str, mode: u32| {
        let members: [(&str, &[u8], u32); 5] = [
            ("fragment/fragment.toml", TEST_FRAGMENT_TOML, 0o644),
            ("fragment/hooks/entrypoint", b"#!/bin/sh\n", mode),
            ("fragment/tree/etc/yum.repos.d/epel.repo", b"[epel]\n", 0o644),
            ("fragment/mount/etc/pki/k.pem", b"k", 0o600),
            ("fragment/mount/etc/pki/deep/l.pem", b"l", 0o600),
        ];
        let paths: Vec<String> =
            members.iter().map(|(path, _, _)| format!("{prefix}{path}")).collect();
        let entries: Vec<RawEntry> = members
            .iter()
            .zip(&paths)
            .map(|(&(_, data, mode), path)| RawEntry {
                path: path.as_bytes(),
                data,
                mode,
                entry_type: tar::EntryType::Regular,
            })
            .collect();
        vec![create_test_tarball_with_modes(&entries)]
    };
    let plain = shown(&spelled("", 0o755)).unwrap();
    assert_eq!(plain.0, "nvidia-driver");
    assert_eq!(plain.2, ["entrypoint"]);
    assert_eq!(plain.3, ["/etc/pki"]);
    assert_eq!(plain.4, "[epel]\n");
    for prefix in LAYER_PATH_PREFIXES {
        assert_eq!(shown(&spelled(prefix, 0o755)).as_ref(), Some(&plain), "{prefix:?}");
        assert_eq!(shown(&spelled(prefix, 0o644)), None, "{prefix:?}");
    }
}

#[test]
fn payload_extraction_is_prefix_independent() {
    for prefix in LAYER_PATH_PREFIXES {
        let conf_path = format!("{prefix}fragment/tree/etc/app.conf");
        let hook_path = format!("{prefix}fragment/hooks/entrypoint");
        let tarball = create_test_tarball_with_modes(&[
            hook_entry(&conf_path, 0o644),
            hook_entry(&hook_path, 0o755),
        ]);
        let plan = plan_fragment_payload(&tarball, "w", MountMaterialization::Skip).unwrap();
        assert!(plan.failure.is_none());
        let dests: Vec<&str> = plan.writes.iter().map(|w| w.dest.as_str()).collect();
        assert_eq!(
            dests,
            ["w/tree/etc/app.conf", "w/hooks/entrypoint"],
            "prefix {prefix:?}"
        );
    }
}

#[test]
fn mount_material_derives_points_across_layers() {
    let mut layers = fragment_layers(vec![hook_entry("fragment/mount/etc/rhsm/ca/x", 0o600)]);
    layers.push(create_test_tarball(&[
        ("./fragment/mount/etc/rhsm/rhsm.conf", b"x"),
        ("/fragment/mount/etc/pki/c.pem", b"x"),
    ]));
    let metadata = from_layers(&layers).unwrap();
    assert!(metadata.has_mount_dir);
    let targets: Vec<String> = metadata.mount_points.iter().map(MountPoint::target).collect();
    assert_eq!(targets, ["/etc/pki", "/etc/rhsm"]);
}

#[test]
fn an_empty_mount_directory_is_seen() {
    let with_dir = fragment_layers(vec![RawEntry {
        path: b"fragment/mount/",
        data: b"",
        mode: 0o755,
        entry_type: tar::EntryType::Directory,
    }]);
    let metadata = from_layers(&with_dir).unwrap();
    assert!(metadata.has_mount_dir);
    assert!(metadata.mount_points.is_empty());

    let without = from_layers(&fragment_layers(vec![])).unwrap();
    assert!(!without.has_mount_dir);
}

#[test]
fn a_top_level_mount_file_fails_the_load() {
    let err = from_layers(&fragment_layers(vec![hook_entry("fragment/mount/cert.pem", 0o600)]))
        .unwrap_err();
    assert!(err.starts_with("fragment 'nvidia-driver': mount/cert.pem is a regular file"), "{err}");
}

#[test]
fn later_layers_shadow_earlier_ones() {
    let mut layers = fragment_layers(vec![
        hook_entry("fragment/hooks/entrypoint", 0o644),
        hook_entry("fragment/tree/etc/yum.repos.d/a.repo", 0o644),
    ]);
    layers.push(create_test_tarball_with_modes(&[
        hook_entry("fragment/hooks/entrypoint", 0o755),
        RawEntry {
            path: b"fragment/tree/etc/yum.repos.d/a.repo",
            data: b"later",
            mode: 0o644,
            entry_type: tar::EntryType::Regular,
        },
        RawEntry {
            path: FRAGMENT_TOML_PATH.as_bytes(),
            data: b"not toml at all",
            mode: 0o644,
            entry_type: tar::EntryType::Regular,
        },
    ]));
    let metadata = from_layers(&layers).unwrap();
    assert_eq!(metadata.fragment.name.as_str(), "nvidia-driver");
    assert_eq!(metadata.hook_paths, vec!["entrypoint", "entrypoint"]);
    assert_eq!(metadata.repo_file_contents.get("a.repo"), Some("later"));
}

#[test]
fn layers_without_metadata_or_with_bad_metadata_fail() {
    let none = vec![create_test_tarball(&[("fragment/tree/x", b"x")])];
    assert_eq!(
        from_layers(&none).unwrap_err(),
        "no layer containing fragment/fragment.toml found in image"
    );
    let bad = vec![create_test_tarball(&[("fragment/fragment.toml", b"name = ")])];
    assert!(from_layers(&bad).is_err());
    let unsafe_name = vec![create_test_tarball(&[(
        "fragment/fragment.toml",
        b"[fragment]\nname=\"../x\"\nversion=\"1\"\ndescription=\"x\"",
    )])];
    assert!(from_layers(&unsafe_name).unwrap_err().contains("invalid fragment name '../x'"));
    let link = vec![create_test_tarball_with_modes(&[RawEntry {
        path: b"fragment/tree/link",
        data: b"",
        mode: 0o777,
        entry_type: tar::EntryType::Symlink,
    }])];
    assert!(from_layers(&link).unwrap_err().contains("symlink or hardlink"));
}
