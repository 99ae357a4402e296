use std::cell::{Cell, RefCell};

use osfragment_assemble::fragment::{
    is_repo_path, Fragment, FragmentConflicts, FragmentName, FragmentPackages, FragmentProvides,
};
use osfragment_assemble::loader::{
    load_all_fragments, load_registry_fragment, load_registry_fragment_metadata_only,
    materialize_fragment, should_keep_fragment_digests, split_tree_paths,
    validate_hooks_entrypoint, LoadedFragment,
};
use osfragment_assemble::manifest::{FragmentSource, Manifest, ManifestFragment};
use osfragment_assemble::mount::{MountMaterialization, MountPoint};
use osfragment_assemble::registry::{split_image_ref, CommandOutput};
use osfragment_assemble::repos::RepoFiles;

#[test]
fn classify_repo_paths() {
    assert!(is_repo_path("tree/etc/yum.repos.d/epel.repo"));
    assert!(is_repo_path("tree/etc/pki/rpm-gpg/RPM-GPG-KEY-EPEL-10"));
    assert!(!is_repo_path("tree/usr/lib/sysctl.d/99-hardening.conf"));
    assert!(!is_repo_path("hooks/configure.sh"));
}

#[test]
fn split_tree_paths_separates_repo_from_config() {
    let paths = vec![
        "tree/etc/yum.repos.d/tailscale.repo".to_string(),
        "tree/etc/pki/rpm-gpg/RPM-GPG-KEY-tailscale".to_string(),
        "tree/usr/lib/systemd/system-preset/50-tailscale.preset".to_string(),
    ];
    let (repo, config) = split_tree_paths(&paths);
    assert_eq!(repo.len(), 2);
    assert_eq!(config.len(), 1);
}

#[test]
fn splitting_leaves_out_what_is_not_in_the_tree() {
    let paths = vec![
        "fragment.toml".to_string(),
        "tree/b".to_string(),
        "hooks/entrypoint".to_string(),
        "tree/a".to_string(),
    ];
    let (repo, config) = split_tree_paths(&paths);
    assert!(repo.is_empty());
    assert_eq!(config, vec!["tree/b", "tree/a"]);
}

/// Digest a stub load reports, standing in for what skopeo would resolve.
const TEST_DIGEST: &str = "sha256:0123456789abcdef";

fn test_manifest(images: &[&str]) -> Manifest {
    Manifest {
        base: "quay.io/test/base:1".into(),
        fragments: images
            .iter()
            .map(|image| ManifestFragment {
                image: (*image).into(),
                packages: vec![],
                mirror: None,
            })
            .collect(),
        source_path: "test-manifest.yaml".into(),
    }
}

fn fragment(name: &str) -> Fragment {
    Fragment {
        name: FragmentName::new(name).expect("test fragment name must be valid"),
        version: "1".into(),
        description: "test".into(),
        vendor: None,
        provides: FragmentProvides { repos: vec![] },
        packages: FragmentPackages { required: vec![] },
        conflicts: FragmentConflicts { fragments: vec![] },
    }
}

/// What a registry load returns: a digest-pinned source and a resolved
/// digest, so the stripping branch has something to strip.
fn stub_loaded(image_ref: &str) -> LoadedFragment {
    let (name, _tag) = split_image_ref(image_ref);
    let short = name.rsplit('/').next().unwrap_or("frag");
    LoadedFragment {
        fragment: fragment(short),
        tree_paths: vec![],
        hook_paths: vec![],
        source: FragmentSource::Registry { image_ref: format!("{}@{}", name, TEST_DIGEST) },
        resolved_digest: Some(TEST_DIGEST.into()),
        manifest_index: 0,
        repo_file_contents: RepoFiles::new(),
        mount_points: vec![],
        has_mount_dir: false,
        drift_warning: None,
    }
}

#[test]
fn keep_fragment_digests_cases() {
    // (pin_digests, self_contained, expected)
    let cases = [
        (false, None, false),
        (false, Some("out"), true),
        (true, None, true),
        (true, Some("out"), true),
    ];
    for (pin_digests, self_contained, expected) in cases {
        assert_eq!(
            should_keep_fragment_digests(pin_digests, self_contained),
            expected,
            "pin_digests={pin_digests}, self_contained={self_contained:?}"
        );
    }
}

#[test]
fn load_all_fragments_digest_retention_tracks_keep_digests() {
    // (keep_digests, digest survives the load)
    let cases = [(true, true), (false, false)];
    for (keep_digests, survives) in cases {
        let manifest = test_manifest(&["quay.io/test/epel:10"]);
        let loaded = load_all_fragments(&manifest, keep_digests, |r: &str| Ok(stub_loaded(r)))
            .expect("stub load cannot fail");
        let FragmentSource::Registry { image_ref } = &loaded[0].source;

        assert_eq!(
            loaded[0].resolved_digest.is_some(),
            survives,
            "resolved_digest must track keep_digests={keep_digests}"
        );
        assert_eq!(
            image_ref.contains('@'),
            survives,
            "source ref pinning must track keep_digests={keep_digests}"
        );
        if !survives {
            assert_eq!(
                image_ref, "quay.io/test/epel:10",
                "stripping restores the manifest's declared ref, tag included"
            );
        }
    }
}

#[test]
fn load_all_fragments_indexes_and_orders_by_manifest_position() {
    let manifest = test_manifest(&[
        "quay.io/test/epel:10",
        "quay.io/test/nginx:1",
        "quay.io/test/grafana:11",
    ]);
    let loaded = load_all_fragments(&manifest, true, |r: &str| Ok(stub_loaded(r)))
        .expect("stub load cannot fail");

    let indices: Vec<usize> = loaded.iter().map(|f| f.manifest_index).collect();
    assert_eq!(
        indices,
        vec![0, 1, 2],
        "manifest_index is the slice position"
    );

    let names: Vec<&str> = loaded.iter().map(|f| f.fragment.name.as_str()).collect();
    assert_eq!(
        names,
        vec!["epel", "nginx", "grafana"],
        "emission order is manifest order, never sorted or grouped"
    );
}

#[test]
fn load_all_fragments_on_empty_manifest_loads_nothing() {
    let manifest = test_manifest(&[]);
    let calls = Cell::new(0);
    let loaded = load_all_fragments(&manifest, true, |r: &str| {
        calls.set(calls.get() + 1);
        Ok(stub_loaded(r))
    })
    .expect("an empty manifest is not an error");

    assert!(loaded.is_empty());
    assert_eq!(
        calls.get(),
        0,
        "an empty manifest must not reach a registry"
    );
}

#[test]
fn load_all_fragments_rejects_dir_source_before_loading() {
    let manifest = test_manifest(&["dir:./local-fragment"]);
    let calls = Cell::new(0);
    let err = load_all_fragments(&manifest, true, |r: &str| {
        calls.set(calls.get() + 1);
        Ok(stub_loaded(r))
    })
    .expect_err("dir: sources are unsupported");

    assert!(err.contains("dir:"), "got: {err}");
    assert_eq!(
        calls.get(),
        0,
        "a dir: source must fail before any load is attempted"
    );
}

#[test]
fn load_all_fragments_aborts_at_the_first_failing_fragment() {
    let manifest = test_manifest(&[
        "quay.io/test/epel:10",
        "quay.io/test/broken:1",
        "quay.io/test/nginx:1",
    ]);
    let calls = Cell::new(0);
    let err = load_all_fragments(&manifest, true, |r: &str| {
        calls.set(calls.get() + 1);
        if r.contains("broken") {
            return Err("simulated registry failure".to_string());
        }
        Ok(stub_loaded(r))
    })
    .expect_err("a failing fragment fails the run");

    assert!(err.contains("simulated registry failure"));
    assert_eq!(
        calls.get(),
        2,
        "the run stops at the failing fragment rather than continuing to the third"
    );
}

/// These two messages are the contract's whole user interface, and their
/// wording is fixed. Single-line by design: the terminal wraps at its own
/// width.
#[test]
fn entrypoint_errors_are_verbatim_single_lines() {
    assert_eq!(
        validate_hooks_entrypoint("nvidia-driver", None).unwrap_err(),
        "fragment 'nvidia-driver': hooks/ contains files but no executable hooks/entrypoint; the entrypoint is the single file osfragment-assemble runs. Rename the script to hooks/entrypoint, or add one that invokes the others."
    );
    assert_eq!(
        validate_hooks_entrypoint("nvidia-driver", Some(0o644)).unwrap_err(),
        "fragment 'nvidia-driver': hooks/entrypoint is not executable; the entrypoint is the single file osfragment-assemble runs. Set the execute bit (chmod +x) before building the fragment image."
    );
    for mode in [0o744, 0o654, 0o645, 0o100755] {
        assert!(validate_hooks_entrypoint("nvidia-driver", Some(mode)).is_ok());
    }
}

/// A layer with `fragment.toml` and the given files.
fn layer(files: &[&str]) -> Vec<u8> {
    let mut buf = Vec::new();
    {
        let enc = flate2::write::GzEncoder::new(&mut buf, flate2::Compression::default());
        let mut tar = tar::Builder::new(enc);
        for path in std::iter::once(&"fragment/fragment.toml").chain(files) {
            let mut header = tar::Header::new_gnu();
            header.set_size(4);
            header.set_mode(0o755);
            header.set_cksum();
            tar.append_data(&mut header, path, &b"data"[..]).unwrap();
        }
        tar.into_inner().unwrap().finish().unwrap();
    }
    buf
}

fn manifest_answer(json: &str) -> Result<CommandOutput, String> {
    Ok(CommandOutput { success: true, stdout: json.as_bytes().to_vec(), stderr: vec![] })
}

fn targets(loaded: &LoadedFragment) -> Vec<String> {
    loaded.mount_points.iter().map(MountPoint::target).collect()
}

const MOUNTS_JSON: &str =
    "{\"annotations\":{\"com.github.marrusl.osfragment.mounts\":\"[\\\"/etc/rhsm\\\"]\"}}";

#[test]
fn a_registry_load_pulls_and_inspects_the_pinned_image() {
    let asked = RefCell::new(Vec::new());
    let loaded = load_registry_fragment(
        "localhost:5000/test/epel:10",
        |r: &str| {
            asked.borrow_mut().push(format!("resolve {r}"));
            Ok("sha256:d00d".to_string())
        },
        |r: &str| {
            asked.borrow_mut().push(format!("pull {r}"));
            Ok(vec![layer(&["fragment/mount/etc/rhsm/x", "fragment/tree/etc/a"])])
        },
        |r: &str| {
            asked.borrow_mut().push(format!("inspect {r}"));
            manifest_answer(MOUNTS_JSON)
        },
        |toml: &str| {
            assert_eq!(toml, "data");
            Ok(fragment("epel"))
        },
    )
    .unwrap();
    assert_eq!(
        *asked.borrow(),
        vec![
            "resolve localhost:5000/test/epel:10",
            "pull localhost:5000/test/epel@sha256:d00d",
            "inspect localhost:5000/test/epel@sha256:d00d",
        ]
    );
    assert_eq!(loaded.fragment.name.as_str(), "epel");
    assert_eq!(
        loaded.tree_paths,
        vec!["fragment.toml", "mount/etc/rhsm/x", "tree/etc/a"]
    );
    let FragmentSource::Registry { image_ref } = &loaded.source;
    assert_eq!(image_ref, "localhost:5000/test/epel@sha256:d00d");
    assert_eq!(loaded.resolved_digest.as_deref(), Some("sha256:d00d"));
    assert_eq!(targets(&loaded), ["/etc/rhsm"]);
    assert!(loaded.has_mount_dir);
    assert_eq!(loaded.drift_warning, None, "the annotation agrees with the layer");
}

#[test]
fn a_registry_load_carries_drift() {
    let load = |inspected: Result<CommandOutput, String>| {
        load_registry_fragment(
            "quay.io/test/epel:10",
            |_: &str| Ok("sha256:d00d".to_string()),
            |_: &str| Ok(vec![layer(&["fragment/mount/etc/pki/x"])]),
            |_: &str| inspected.clone(),
            |_: &str| Ok(fragment("epel")),
        )
        .unwrap()
        .drift_warning
    };
    let warning = load(manifest_answer(MOUNTS_JSON)).unwrap();
    assert!(warning.contains("Annotated: /etc/rhsm."), "{warning}");
    assert!(warning.contains("Derived from the layer: /etc/pki."), "{warning}");
    assert_eq!(load(manifest_answer("{}")), None, "no annotation, nothing to drift");
    assert_eq!(load(Err("offline".to_string())), None);
}

#[test]
fn a_registry_load_stops_at_the_first_failure() {
    let parse = |_: &str| Ok(fragment("epel"));
    let inspect = |_: &str| manifest_answer("{}");
    let err = load_registry_fragment(
        "x",
        |_: &str| Err("no digest".to_string()),
        |_: &str| panic!("nothing is pulled without a digest"),
        inspect,
        parse,
    )
    .unwrap_err();
    assert_eq!(err, "no digest");
    let err = load_registry_fragment(
        "x",
        |_: &str| Ok("sha256:1".to_string()),
        |_: &str| Err("no layers".to_string()),
        inspect,
        parse,
    )
    .unwrap_err();
    assert_eq!(err, "no layers");
    let err = load_registry_fragment(
        "x",
        |_: &str| Ok("sha256:1".to_string()),
        |_: &str| Ok(vec![layer(&[])]),
        inspect,
        |_: &str| Err("bad toml".to_string()),
    )
    .unwrap_err();
    assert_eq!(err, "bad toml");
}

#[test]
fn annotations_spare_the_layer_pull() {
    let json = "{\"annotations\":{\
        \"com.github.marrusl.osfragment.name\":\"epel\",\
        \"com.github.marrusl.osfragment.version\":\"10\",\
        \"com.github.marrusl.osfragment.mounts\":\"[\\\"/etc/rhsm\\\"]\"}}";
    let loaded = load_registry_fragment_metadata_only(
        "quay.io/test/epel:10",
        |_: &str| Ok("sha256:d00d".to_string()),
        |_: &str| panic!("annotations make the pull unnecessary"),
        |r: &str| {
            assert_eq!(r, "quay.io/test/epel:10");
            manifest_answer(json)
        },
        |_: &str| panic!("and so the parse"),
    )
    .unwrap();
    assert_eq!(loaded.fragment.name.as_str(), "epel");
    assert_eq!(loaded.fragment.version, "10");
    assert_eq!(targets(&loaded), ["/etc/rhsm"]);
    assert!(loaded.has_mount_dir);
    let FragmentSource::Registry { image_ref } = &loaded.source;
    assert_eq!(image_ref, "quay.io/test/epel@sha256:d00d");
}

#[test]
fn missing_annotations_fall_back_to_the_layers() {
    let answers = [
        manifest_answer("{}"),
        manifest_answer("[]"),
        manifest_answer("{\"annotations\":{\"com.github.marrusl.osfragment.name\":\"../x\"}}"),
        Ok(CommandOutput { success: false, stdout: vec![], stderr: vec![] }),
    ];
    for answer in answers {
        let pulls = Cell::new(0);
        let loaded = load_registry_fragment_metadata_only(
            "quay.io/test/epel:10",
            |_: &str| Ok("sha256:d00d".to_string()),
            |_: &str| {
                pulls.set(pulls.get() + 1);
                Ok(vec![layer(&[])])
            },
            |_: &str| answer.clone(),
            |_: &str| Ok(fragment("from-layer")),
        )
        .unwrap();
        assert_eq!(pulls.get(), 1);
        assert_eq!(loaded.fragment.name.as_str(), "from-layer");
    }
    let err = load_registry_fragment_metadata_only(
        "x",
        |_: &str| Ok("sha256:d00d".to_string()),
        |_: &str| panic!("a manifest that is not JSON is an error"),
        |_: &str| manifest_answer("{"),
        |_: &str| Ok(fragment("x")),
    )
    .unwrap_err();
    assert!(!err.is_empty());
}

#[test]
fn materialization_writes_layer_by_layer() {
    let written = RefCell::new(Vec::new());
    let result = materialize_fragment(
        "quay.io/test/epel@sha256:d00d",
        "out/fragments/epel",
        MountMaterialization::Skip,
        |r: &str| {
            assert_eq!(r, "quay.io/test/epel@sha256:d00d");
            Ok(vec![layer(&["fragment/tree/a"]), layer(&["fragment/hooks/b", "fragment/mount/c/d"])])
        },
        |_: &Vec<u8>, plan: &osfragment_assemble::layer::PayloadPlan| {
            let dests: Vec<String> = plan.writes.iter().map(|w| w.dest.clone()).collect();
            written.borrow_mut().push(dests);
            Ok(())
        },
    );
    assert!(result.is_ok());
    assert_eq!(
        *written.borrow(),
        vec![vec!["out/fragments/epel/tree/a"], vec!["out/fragments/epel/hooks/b"]]
    );
}

#[test]
fn materialization_stops_at_the_first_failing_layer() {
    let calls = Cell::new(0);
    let err = materialize_fragment(
        "x",
        "out",
        MountMaterialization::Write,
        |_: &str| Ok(vec![layer(&["fragment/tree/a"]), layer(&["fragment/tree/b"])]),
        |_: &Vec<u8>, _: &osfragment_assemble::layer::PayloadPlan| {
            calls.set(calls.get() + 1);
            Err("disk full".to_string())
        },
    )
    .unwrap_err();
    assert_eq!(err, "disk full");
    assert_eq!(calls.get(), 1);
    let err = materialize_fragment(
        "x",
        "out",
        MountMaterialization::Write,
        |_: &str| Ok(vec![b"not gzip".to_vec(), layer(&[])]),
        |_: &Vec<u8>, plan: &osfragment_assemble::layer::PayloadPlan| {
            assert!(plan.writes.is_empty());
            Ok(())
        },
    )
    .unwrap_err();
    assert!(err.starts_with("reading tar entry: "), "{err}");
}
