use std::cell::RefCell;

use osfragment_assemble::fragment::Fragment;
use osfragment_assemble::mount::MountPoint;
use osfragment_assemble::oci::{blob_path, layer_digests, manifest_digest, pull_layer_bytes};
use osfragment_assemble::registry::{
    copy_request, digest_query, fragment_from_annotations, manifest_annotations, manifest_query,
    mounts_from_annotations, pinned_reference, resolve_digest, split_image_ref,
    try_annotation_fast_path, CommandOutput, MountAnnotation,
};

fn from_annotations(members: &[(&str, &str)]) -> Option<Fragment> {
    let mut object = serde_json::Map::new();
    for (key, value) in members {
        object.insert(key.to_string(), serde_json::Value::String(value.to_string()));
    }
    let mut manifest = serde_json::Map::new();
    manifest.insert("annotations".to_string(), serde_json::Value::Object(object));
    let document = serde_json::Value::Object(manifest).to_string();
    fragment_from_annotations(&manifest_annotations(document.as_bytes()).unwrap())
}

#[test]
fn annotations_populate_fragment_from_project_namespace() {
    let frag = from_annotations(&[
        ("com.github.marrusl.osfragment.name", "tailscale"),
        ("com.github.marrusl.osfragment.version", "1.82.0"),
        ("com.github.marrusl.osfragment.description", "Tailscale mesh VPN"),
        ("com.github.marrusl.osfragment.vendor", "Tailscale Inc."),
        ("com.github.marrusl.osfragment.provides.repos", "[\"tailscale\"]"),
        ("com.github.marrusl.osfragment.packages.required", "[\"tailscale\"]"),
    ])
    .expect("all required keys present");
    assert_eq!(frag.name.as_str(), "tailscale");
    assert_eq!(frag.version, "1.82.0");
    assert_eq!(frag.description, "Tailscale mesh VPN");
    assert_eq!(frag.vendor.as_deref(), Some("Tailscale Inc."));
    assert_eq!(frag.provides.repos, vec!["tailscale"]);
    assert_eq!(frag.packages.required, vec!["tailscale"]);
    assert!(frag.conflicts.fragments.is_empty());
}

/// Lookups are per-key, so an extra annotation is ignored and the fast path
/// still resolves.
#[test]
fn stale_phase_annotation_is_ignored_by_fast_path() {
    let frag = from_annotations(&[
        ("com.github.marrusl.osfragment.name", "epel"),
        ("com.github.marrusl.osfragment.version", "10"),
        ("com.github.marrusl.osfragment.phase", "repos"),
    ])
    .expect("stale phase key must not block resolution");
    assert_eq!(frag.name.as_str(), "epel");
}

/// A name that fails the grammar must not satisfy the fast path.
#[test]
fn path_unsafe_annotation_name_does_not_satisfy_fast_path() {
    for bad in ["../../escape", "a/b", "", "EPEL"] {
        assert!(
            from_annotations(&[
                ("com.github.marrusl.osfragment.name", bad),
                ("com.github.marrusl.osfragment.version", "1.0"),
            ])
            .is_none(),
            "annotated name '{bad}' must not satisfy the fast path"
        );
    }
}

#[test]
fn retired_bootc_annotations_do_not_satisfy_fast_path() {
    assert!(
        from_annotations(&[
            ("io.bootc.fragment.name", "tailscale"),
            ("io.bootc.fragment.version", "1.82.0"),
            ("io.bootc.fragment.phase", "config"),
        ])
        .is_none(),
        "old-namespace keys must not satisfy the fast path; the fragment falls back to layer extraction"
    );
}

#[test]
fn optional_annotations_default_to_empty() {
    let frag = from_annotations(&[
        ("com.github.marrusl.osfragment.name", "epel"),
        ("com.github.marrusl.osfragment.version", "10"),
        ("com.github.marrusl.osfragment.provides.repos", "not a list"),
    ])
    .unwrap();
    assert_eq!(frag.description, "");
    assert_eq!(frag.vendor, None);
    assert!(frag.provides.repos.is_empty());
    assert!(frag.packages.required.is_empty());
    assert!(from_annotations(&[("com.github.marrusl.osfragment.name", "epel")]).is_none());
}

fn mounts(value: &str) -> MountAnnotation {
    let document = format!(
        "{{\"annotations\":{{\"com.github.marrusl.osfragment.mounts\":{value}}}}}"
    );
    mounts_from_annotations(&manifest_annotations(document.as_bytes()).unwrap())
}

#[test]
fn mount_annotations_name_targets_or_are_unusable() {
    match mounts("\"[\\\"/etc/rhsm\\\", \\\"/etc/pki\\\"]\"") {
        MountAnnotation::Points(points) => {
            let targets: Vec<String> = points.iter().map(MountPoint::target).collect();
            assert_eq!(targets, ["/etc/rhsm", "/etc/pki"]);
        }
        other => panic!("{other:?}"),
    }
    assert!(matches!(mounts("\"[\\\"etc/rhsm\\\"]\""), MountAnnotation::Unusable));
    assert!(matches!(mounts("\"/etc/rhsm\""), MountAnnotation::Unusable));
    assert!(matches!(mounts("7"), MountAnnotation::Absent));
}

fn output(success: bool, stdout: &[u8], stderr: &[u8]) -> CommandOutput {
    CommandOutput { success, stdout: stdout.to_vec(), stderr: stderr.to_vec() }
}

#[test]
fn the_fast_path_reads_the_manifest_or_steps_aside() {
    let described = output(
        true,
        b"{\"annotations\":{\"com.github.marrusl.osfragment.name\":\"epel\",\"com.github.marrusl.osfragment.version\":\"10\"}}",
        b"",
    );
    let annotated = try_annotation_fast_path(&described).unwrap().unwrap();
    assert_eq!(annotated.fragment.name.as_str(), "epel");
    assert!(annotated.mount_points.is_empty());

    assert!(try_annotation_fast_path(&output(false, b"", b"denied")).unwrap().is_none());
    assert!(try_annotation_fast_path(&output(true, b"{}", b"")).unwrap().is_none());
    assert!(try_annotation_fast_path(&output(true, b"{\"annotations\":3}", b"")).unwrap().is_none());
    assert!(try_annotation_fast_path(&output(true, b"nonsense", b"")).is_err());
}

#[test]
fn digests_are_trimmed_and_failures_carry_stderr() {
    assert_eq!(
        resolve_digest("x", &output(true, b" sha256:abc\n", b"")).unwrap(),
        "sha256:abc"
    );
    assert_eq!(
        resolve_digest("quay.io/x:1", &output(false, b"", b"denied\xff")).unwrap_err(),
        "skopeo digest lookup failed for quay.io/x:1: denied\u{fffd}"
    );
    assert_eq!(
        resolve_digest("x", &output(true, b"ab\xff", b"")).unwrap_err(),
        "invalid utf-8 sequence of 1 bytes from index 2"
    );
}

#[test]
fn image_references_split_at_the_tag() {
    let split = |r: &str| split_image_ref(r);
    assert_eq!(split("quay.io/a/b:1"), ("quay.io/a/b".to_string(), Some("1".to_string())));
    assert_eq!(split("quay.io/a/b"), ("quay.io/a/b".to_string(), None));
    assert_eq!(split("localhost:5000/b"), ("localhost:5000/b".to_string(), None));
    assert_eq!(
        split("localhost:5000/b:2@sha256:ff"),
        ("localhost:5000/b".to_string(), Some("2".to_string()))
    );
    assert_eq!(pinned_reference("quay.io/a/b:1", "sha256:ff"), "quay.io/a/b@sha256:ff");
    assert_eq!(pinned_reference("quay.io/a/b@sha256:00", "sha256:ff"), "quay.io/a/b@sha256:ff");
}

#[test]
fn queries_name_the_image() {
    assert_eq!(
        digest_query("q/x:1"),
        ["inspect", "--override-os", "linux", "--format", "{{.Digest}}", "docker://q/x:1"]
    );
    assert_eq!(
        manifest_query("q/x:1"),
        ["inspect", "--override-os", "linux", "--raw", "docker://q/x:1"]
    );
    assert_eq!(
        copy_request("q/x:1", "/tmp/l"),
        ["copy", "--override-os", "linux", "docker://q/x:1", "oci:/tmp/l"]
    );
}

#[test]
fn a_layout_leads_to_its_layers() {
    assert_eq!(blob_path("l", "sha256:ab"), "l/blobs/sha256/ab");
    assert_eq!(
        manifest_digest("{\"manifests\":[{\"digest\":\"sha256:m\"},{}]}").unwrap(),
        "sha256:m"
    );
    for bad in ["{}", "[]", "{\"manifests\":[]}", "{\"manifests\":{\"0\":{}}}"] {
        assert_eq!(manifest_digest(bad).unwrap_err(), "no manifests in OCI index", "{bad}");
    }
    assert_eq!(
        manifest_digest("{\"manifests\":[{\"digest\":5}]}").unwrap_err(),
        "no digest in manifest descriptor"
    );
    assert!(manifest_digest("{").is_err());
    assert_eq!(
        layer_digests("{\"layers\":[{\"digest\":\"sha256:a\"},{}]}").unwrap(),
        vec![Some("sha256:a".to_string()), None]
    );
    assert_eq!(layer_digests("{}").unwrap_err(), "no layers in manifest");
}

fn layout(path: &str) -> Result<String, String> {
    match path {
        "l/index.json" => Ok("{\"manifests\":[{\"digest\":\"sha256:m\"}]}".to_string()),
        "l/blobs/sha256/m" => Ok(
            "{\"layers\":[{\"digest\":\"sha256:a\"},{\"digest\":\"sha256:b\"},{}]}".to_string(),
        ),
        other => Err(format!("no file {other}")),
    }
}

#[test]
fn pulling_reads_layers_in_order_up_to_the_first_that_is_missing() {
    let read = RefCell::new(Vec::new());
    let err = pull_layer_bytes(
        "q/x@sha256:m",
        "l",
        |args: &Vec<String>| {
            assert_eq!(args.last().unwrap(), "oci:l");
            Ok(true)
        },
        layout,
        |path: &str| {
            read.borrow_mut().push(path.to_string());
            Ok(vec![1])
        },
    )
    .unwrap_err();
    assert_eq!(err, "no digest in layer descriptor");
    assert_eq!(*read.borrow(), vec!["l/blobs/sha256/a", "l/blobs/sha256/b"]);

    let err = pull_layer_bytes(
        "q/x",
        "l",
        |_: &Vec<String>| Ok(true),
        layout,
        |_: &str| Err("gone".to_string()),
    )
    .unwrap_err();
    assert_eq!(err, "reading layer blob sha256:a: gone");

    let layers = pull_layer_bytes(
        "q/x",
        "l",
        |_: &Vec<String>| Ok(true),
        |path: &str| {
            if path == "l/index.json" {
                layout(path)
            } else {
                Ok("{\"layers\":[{\"digest\":\"sha256:a\"},{\"digest\":\"sha256:b\"}]}".to_string())
            }
        },
        |path: &str| Ok(path.as_bytes().to_vec()),
    )
    .unwrap();
    assert_eq!(layers, vec![b"l/blobs/sha256/a".to_vec(), b"l/blobs/sha256/b".to_vec()]);
}

#[test]
fn a_failed_copy_reads_nothing() {
    let nothing = |_: &str| -> Result<String, String> { panic!("nothing is read") };
    let no_blob = |_: &str| -> Result<Vec<u8>, String> { panic!("nothing is read") };
    assert_eq!(
        pull_layer_bytes("q/x", "l", |_: &Vec<String>| Ok(false), nothing, no_blob).unwrap_err(),
        "skopeo copy failed for q/x"
    );
    assert_eq!(
        pull_layer_bytes(
            "q/x",
            "l",
            |_: &Vec<String>| Err("not found".to_string()),
            nothing,
            no_blob
        )
        .unwrap_err(),
        "failed to run skopeo copy: not found"
    );
    assert_eq!(
        pull_layer_bytes(
            "q/x",
            "m",
            |_: &Vec<String>| Ok(true),
            |path: &str| Err(format!("no file {path}")),
            no_blob
        )
        .unwrap_err(),
        "no file m/index.json"
    );
}
