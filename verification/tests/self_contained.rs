use std::cell::{Cell, RefCell};

use osfragment_assemble::fragment::{
    Fragment, FragmentConflicts, FragmentName, FragmentPackages, FragmentProvides,
};
use osfragment_assemble::loader::LoadedFragment;
use osfragment_assemble::manifest::FragmentSource;
use osfragment_assemble::mount::{derive_mount_points, MountMaterialization};
use osfragment_assemble::output::{write_output, OutputAction, OutputEvent, OutputJob};
use osfragment_assemble::repos::RepoFiles;
use osfragment_assemble::restrict::{restrict_mount_tree, DirEntry, DirListing};
use osfragment_assemble::self_contained::{
    archive_path_for, check_mount_materialization, check_target_dir_safe,
    check_target_not_symlink, create_archive, mount_gitignore_contents, sentinel_contents,
    ArchivePlan, TargetProbe, TargetState, SENTINEL_FILENAME,
};

fn directory(entries: &[&str]) -> TargetState {
    TargetState::Directory(entries.iter().map(|e| e.to_string()).collect())
}

#[test]
fn absent_directory_is_safe() {
    assert!(check_target_dir_safe("does-not-exist-yet", &TargetState::Absent).is_ok());
}

#[test]
fn empty_directory_is_safe() {
    assert!(check_target_dir_safe("empty", &directory(&[])).is_ok());
}

#[test]
fn tool_generated_directory_is_safe() {
    let prior =
        directory(&["fragments", "Containerfile", "manifest.yaml", SENTINEL_FILENAME]);
    assert!(check_target_dir_safe("prior-run", &prior).is_ok());
}

#[test]
fn existing_file_target_is_refused() {
    let err = check_target_dir_safe("not-a-dir", &TargetState::NotDirectory).unwrap_err();
    assert!(err.contains("is not a directory"));
}

#[test]
fn foreign_directory_is_refused() {
    let err = check_target_dir_safe("mine", &directory(&["README.md"])).unwrap_err();
    assert!(err.contains("was not generated by this tool"));
}

#[test]
fn directory_missing_sentinel_is_refused() {
    let err = check_target_dir_safe("partial", &directory(&["Containerfile"])).unwrap_err();
    assert!(err.contains("was not generated by this tool"));
}

#[test]
fn containerfile_and_fragments_without_sentinel_is_refused() {
    // A user's own directory that happens to contain both a Containerfile and
    // a fragments/ subdirectory must not be treated as tool-generated.
    let err = check_target_dir_safe("users-own", &directory(&["fragments", "Containerfile"]))
        .unwrap_err();
    assert!(err.contains("was not generated by this tool"));
}

#[test]
fn sentinel_present_but_extra_user_file_is_refused() {
    let err = check_target_dir_safe(
        "prior-run-plus-extra",
        &directory(&["fragments", "Containerfile", SENTINEL_FILENAME, "notes.txt"]),
    )
    .unwrap_err();
    assert!(err.contains("was not generated by this tool"));
}

#[test]
fn a_context_carrying_a_gitignore_is_still_regenerable() {
    let prior = directory(&[
        ".gitignore",
        "Containerfile",
        "manifest.yaml",
        "fragments",
        SENTINEL_FILENAME,
    ]);
    assert!(check_target_dir_safe("ctx", &prior).is_ok());
}

#[test]
fn a_symlinked_target_is_refused_by_name() {
    assert!(check_target_not_symlink("out", false).is_ok());
    let err = check_target_not_symlink("out", true).unwrap_err();
    assert!(err.starts_with("--self-contained target out is a symlink; "), "{err}");
}

fn test_loaded_fragment(name: &str) -> LoadedFragment {
    LoadedFragment {
        fragment: Fragment {
            name: FragmentName::new(name).expect("test fragment name must be valid"),
            version: "1".into(),
            description: "test".into(),
            vendor: None,
            provides: FragmentProvides { repos: vec![] },
            packages: FragmentPackages { required: vec![] },
            conflicts: FragmentConflicts { fragments: vec![] },
        },
        tree_paths: vec![],
        hook_paths: vec![],
        source: FragmentSource::Registry { image_ref: format!("quay.io/test/{}:1", name) },
        resolved_digest: None,
        manifest_index: 0,
        repo_file_contents: RepoFiles::new(),
        mount_points: vec![],
        has_mount_dir: false,
        drift_warning: None,
    }
}

fn mount_carrying_fragment(name: &str, mount_files: &[&str]) -> LoadedFragment {
    let mut loaded = test_loaded_fragment(name);
    let files: Vec<String> = mount_files.iter().map(|f| f.to_string()).collect();
    loaded.mount_points = derive_mount_points(name, &files).expect("fixture derives");
    loaded
}

#[test]
fn self_contained_refuses_mount_material_without_the_flag() {
    let fragments = vec![mount_carrying_fragment(
        "rhel-entitlement",
        &["etc/pki/entitlement/cert.pem"],
    )];
    let err = check_mount_materialization("out", &fragments, false)
        .expect_err("materializing credential material is a custody change");

    assert!(
        err.contains("rhel-entitlement"),
        "names the fragment: {err}"
    );
    assert!(
        err.contains("out/fragments/rhel-entitlement/mount/etc/pki/entitlement"),
        "names the exact path that would land on disk: {err}"
    );
    assert!(
        err.contains("out.tar.gz"),
        "names the sibling archive: {err}"
    );
    assert!(
        err.contains("--materialize-mounts"),
        "names the flag: {err}"
    );
    assert!(
        err.contains("git does not record file modes"),
        "leads with the custody change and the not-for-git rationale: {err}"
    );
}

#[test]
fn self_contained_proceeds_with_the_flag() {
    let fragments = vec![mount_carrying_fragment(
        "rhel-entitlement",
        &["etc/pki/entitlement/cert.pem"],
    )];
    assert!(check_mount_materialization("out", &fragments, true).is_ok());
}

#[test]
fn a_composition_without_mount_material_is_never_gated() {
    let fragments = vec![test_loaded_fragment("epel")];
    assert!(check_mount_materialization("out", &fragments, false).is_ok());
}

#[test]
fn the_gate_names_every_offending_fragment_and_path() {
    let fragments = vec![
        mount_carrying_fragment("entitlement", &["etc/pki/entitlement/c.pem"]),
        mount_carrying_fragment("mirror", &["etc/pki/tls/mirror/client.pem"]),
    ];
    let err = check_mount_materialization("build/ctx", &fragments, false).unwrap_err();
    assert!(
        err.contains("build/ctx/fragments/entitlement/mount/etc/pki/entitlement"),
        "{err}"
    );
    assert!(
        err.contains("build/ctx/fragments/mirror/mount/etc/pki/tls/mirror"),
        "{err}"
    );
    assert!(
        err.contains(
            "on disk:\n  build/ctx/fragments/entitlement/mount/etc/pki/entitlement (fragment 'entitlement')\n  build/ctx/fragments/mirror/mount/etc/pki/tls/mirror (fragment 'mirror')\nand the same bytes would be copied into the sibling archive build/ctx.tar.gz. "
        ),
        "{err}"
    );
}

#[test]
fn archive_path_appends_suffix_without_touching_dots() {
    assert_eq!(archive_path_for("build/context"), "build/context.tar.gz");
    assert_eq!(archive_path_for("out.v2"), "out.v2.tar.gz");
}

#[test]
fn archive_path_normalizes_trailing_separator() {
    // --self-contained out/ (what shell completion produces for an existing
    // directory) must still yield the sibling out.tar.gz.
    assert_eq!(archive_path_for("out/"), "out.tar.gz");
    assert_eq!(archive_path_for("build/context/"), "build/context.tar.gz");
}

#[test]
fn archives_are_planned_beside_their_directory() {
    let path = create_archive("build/context/", |plan: &ArchivePlan| {
        assert_eq!(plan.dir, "build/context/");
        assert_eq!(plan.name, "context");
        assert_eq!(plan.archive_path, "build/context.tar.gz");
        assert_eq!(plan.staging_dir, "build");
        Ok(())
    })
    .unwrap();
    assert_eq!(path, "build/context.tar.gz");
    let path = create_archive("out", |plan: &ArchivePlan| {
        assert_eq!(plan.staging_dir, ".");
        Ok(())
    })
    .unwrap();
    assert_eq!(path, "out.tar.gz");
    assert_eq!(
        create_archive("out", |_: &ArchivePlan| Err("disk full".to_string())).unwrap_err(),
        "disk full"
    );
    assert_eq!(
        create_archive("/", |_: &ArchivePlan| panic!("nothing to pack")).unwrap_err(),
        "/ has no directory name"
    );
}

fn entries(list: &[(&str, bool)]) -> DirListing {
    let entries =
        list.iter().map(|&(name, is_dir)| DirEntry { name: name.to_string(), is_dir }).collect();
    DirListing { entries, failure: None }
}

/// A made-up tree of mount material.
fn mount_tree(dir: &str) -> Result<DirListing, String> {
    match dir {
        "f/mount" => Ok(entries(&[("a", false), ("d", true), ("b", false), ("e", true)])),
        "f/mount/d" => Ok(entries(&[("x", false), ("deep", true)])),
        "f/mount/d/deep" => Ok(entries(&[])),
        "f/mount/e" => Ok(entries(&[("y", false)])),
        other => Err(format!("no directory {other}")),
    }
}

#[test]
fn the_whole_mount_tree_is_restricted_files_before_their_directory() {
    let set = RefCell::new(Vec::new());
    restrict_mount_tree(
        "f",
        |path: &str| path == "f/mount",
        mount_tree,
        |path: &str, mode: u32| {
            set.borrow_mut().push((path.to_string(), mode));
            Ok(())
        },
    )
    .unwrap();
    let set = set.into_inner();
    let shown: Vec<(&str, u32)> = set.iter().map(|(p, m)| (p.as_str(), *m)).collect();
    assert_eq!(
        shown,
        [
            ("f/mount/a", 0o600),
            ("f/mount/b", 0o600),
            ("f/mount", 0o700),
            ("f/mount/e/y", 0o600),
            ("f/mount/e", 0o700),
            ("f/mount/d/x", 0o600),
            ("f/mount/d", 0o700),
            ("f/mount/d/deep", 0o700),
        ]
    );
}

#[test]
fn without_a_mount_directory_nothing_is_restricted() {
    let result = restrict_mount_tree(
        "f/",
        |path: &str| {
            assert_eq!(path, "f/mount");
            false
        },
        |_: &str| panic!("nothing is listed"),
        |_: &str, _: u32| panic!("nothing is changed"),
    );
    assert!(result.is_ok());
}

#[test]
fn restricting_stops_at_the_first_failure() {
    let err = restrict_mount_tree(
        "f",
        |_: &str| true,
        mount_tree,
        |path: &str, _: u32| {
            if path == "f/mount/e/y" { Err("denied".to_string()) } else { Ok(()) }
        },
    )
    .unwrap_err();
    assert_eq!(err, "restricting permissions on f/mount/e/y: denied");
    let err = restrict_mount_tree("g", |_: &str| true, mount_tree, |_: &str, _: u32| Ok(()))
        .unwrap_err();
    assert_eq!(err, "reading g/mount: no directory g/mount");
}

#[test]
fn an_entry_that_cannot_be_read_ends_the_walk_after_the_files_before_it() {
    let set = RefCell::new(Vec::new());
    let err = restrict_mount_tree(
        "f",
        |_: &str| true,
        |dir: &str| {
            let mut listing = mount_tree(dir)?;
            if dir == "f/mount/e" {
                listing.failure = Some("bad entry".to_string());
            }
            Ok(listing)
        },
        |path: &str, _: u32| {
            set.borrow_mut().push(path.to_string());
            Ok(())
        },
    )
    .unwrap_err();
    assert_eq!(err, "bad entry");
    // The files before it are restricted, its directory is not, and nothing
    // after it is visited.
    assert_eq!(set.into_inner(), ["f/mount/a", "f/mount/b", "f/mount", "f/mount/e/y"]);

    // A mode that cannot be set before that is what is reported.
    let err = restrict_mount_tree(
        "f",
        |_: &str| true,
        |_: &str| {
            let mut listing = entries(&[("a", false)]);
            listing.failure = Some("bad entry".to_string());
            Ok(listing)
        },
        |_: &str, _: u32| Err("denied".to_string()),
    )
    .unwrap_err();
    assert_eq!(err, "restricting permissions on f/mount/a: denied");
}

#[test]
fn a_target_whose_entries_cannot_all_be_read_is_refused() {
    let unreadable = TargetState::Unreadable("bad entry".to_string());
    assert_eq!(check_target_dir_safe("build/out", &unreadable).unwrap_err(), "bad entry");

    let disk = Disk::new(unreadable.clone());
    assert_eq!(disk.run(&[], MountMaterialization::Skip).unwrap_err(), "bad entry");
    assert_eq!(disk.last(), "probe build/out");

    let mut disk = Disk::new(directory(&[]));
    disk.later = Some(probe(unreadable));
    assert_eq!(disk.run(&[], MountMaterialization::Skip).unwrap_err(), "bad entry");
    assert!(!disk.replaced());
    assert_eq!(disk.last(), "discard build/.staging");
}

/// A made-up disk: what stands at the target, and what was done.
struct Disk {
    target: RefCell<TargetProbe>,
    done: RefCell<Vec<String>>,
    fails_at: Option<&'static str>,
    reason: &'static str,
    probes: Cell<usize>,
    later: Option<TargetProbe>,
}

fn probe(state: TargetState) -> TargetProbe {
    TargetProbe { is_symlink: false, state }
}

impl Disk {
    fn new(state: TargetState) -> Disk {
        Disk {
            target: RefCell::new(probe(state)),
            done: RefCell::new(Vec::new()),
            fails_at: None,
            reason: "boom",
            probes: Cell::new(0),
            later: None,
        }
    }

    fn perform(&self, action: &OutputAction) -> OutputEvent {
        let shown = match action {
            OutputAction::ProbeTarget { dir } => format!("probe {dir}"),
            OutputAction::CreateDirs { path } => format!("mkdir {path}"),
            OutputAction::CreateStaging { parent } => format!("stage {parent}"),
            OutputAction::WriteFile { path, .. } => format!("write {path}"),
            OutputAction::CopyFile { from, to } => format!("copy {from} {to}"),
            OutputAction::Materialize { image_ref, dest } => {
                format!("materialize {image_ref} {dest}")
            }
            OutputAction::RestrictMounts { fragment_dir } => format!("restrict {fragment_dir}"),
            OutputAction::SetMode { path, mode } => format!("chmod {mode:o} {path}"),
            OutputAction::SetAside { dir, aside } => format!("aside {dir} {aside}"),
            OutputAction::Publish { staging, dir } => format!("rename {staging} {dir}"),
            OutputAction::Restore { aside, dir } => format!("restore {aside} {dir}"),
            OutputAction::RemoveDir { path } => format!("remove {path}"),
            OutputAction::Discard { staging } => format!("discard {staging}"),
        };
        self.done.borrow_mut().push(shown.clone());
        if self.fails_at.is_some_and(|f| shown.starts_with(f)) {
            return OutputEvent::Failed(self.reason.to_string());
        }
        match action {
            OutputAction::ProbeTarget { .. } => {
                self.probes.set(self.probes.get() + 1);
                if self.probes.get() == 2 {
                    if let Some(later) = &self.later {
                        return OutputEvent::Probed(later.clone());
                    }
                }
                OutputEvent::Probed(self.target.borrow().clone())
            }
            OutputAction::CreateStaging { parent } => {
                OutputEvent::Staged(format!("{parent}/.staging"))
            }
            OutputAction::Publish { staging, .. } => {
                let below = format!("{staging}/");
                let entries: Vec<String> = self
                    .done
                    .borrow()
                    .iter()
                    .filter_map(|d| d.split(&below).nth(1))
                    .map(|e| e.split('/').next().unwrap_or(e).to_string())
                    .collect();
                *self.target.borrow_mut() = probe(TargetState::Directory(entries));
                OutputEvent::Done
            }
            _ => OutputEvent::Done,
        }
    }

    fn run(
        &self,
        fragments: &[LoadedFragment],
        mounts: MountMaterialization,
    ) -> Result<Option<String>, String> {
        let job = OutputJob {
            dir: "build/out",
            manifest_path: "m.yaml",
            containerfile: "FROM x\n",
            fragments,
            mounts,
        };
        write_output(&job, |action: &OutputAction| self.perform(action))
    }

    fn replaced(&self) -> bool {
        self.done.borrow().iter().any(|d| d.starts_with("aside") || d.starts_with("rename"))
    }

    fn last(&self) -> String {
        self.done.borrow().last().unwrap().clone()
    }
}

#[test]
fn write_output_stages_then_swaps_atomically() {
    let disk = Disk::new(TargetState::Absent);
    disk.run(
        &[test_loaded_fragment("epel"), test_loaded_fragment("nginx")],
        MountMaterialization::Skip,
    )
    .unwrap();
    assert_eq!(
        *disk.done.borrow(),
        vec![
            "probe build/out",
            "mkdir build",
            "stage build",
            "write build/.staging/Containerfile",
            "copy m.yaml build/.staging/manifest.yaml",
            "write build/.staging/.osfragment-assemble",
            "mkdir build/.staging/fragments",
            "materialize quay.io/test/epel:1 build/.staging/fragments/epel",
            "materialize quay.io/test/nginx:1 build/.staging/fragments/nginx",
            "chmod 755 build/.staging",
            "probe build/out",
            "rename build/.staging build/out",
        ]
    );
}

#[test]
fn materialized_mounts_are_restricted_and_announced() {
    let disk = Disk::new(TargetState::Absent);
    disk.run(
        &[mount_carrying_fragment("ent", &["etc/x/y"]), test_loaded_fragment("epel")],
        MountMaterialization::Write,
    )
    .unwrap();
    let done = disk.done.borrow();
    assert_eq!(
        done[7..12],
        [
            "materialize quay.io/test/ent:1 build/.staging/fragments/ent",
            "restrict build/.staging/fragments/ent",
            "materialize quay.io/test/epel:1 build/.staging/fragments/epel",
            "restrict build/.staging/fragments/epel",
            "write build/.staging/.gitignore",
        ]
    );
}

#[test]
fn a_run_without_mount_material_writes_no_gitignore() {
    for (fragment, mounts) in [
        (test_loaded_fragment("epel"), MountMaterialization::Write),
        (mount_carrying_fragment("ent", &["etc/x/y"]), MountMaterialization::Skip),
    ] {
        let disk = Disk::new(TargetState::Absent);
        disk.run(&[fragment], mounts).unwrap();
        assert!(!disk.done.borrow().iter().any(|d| d.contains(".gitignore")));
    }
}

#[test]
fn write_output_replaces_prior_tool_generated_directory() {
    let disk = Disk::new(directory(&[SENTINEL_FILENAME, "Containerfile"]));
    disk.run(&[], MountMaterialization::Skip).unwrap();
    let done = disk.done.borrow();
    assert_eq!(
        done[done.len() - 4..],
        [
            "probe build/out",
            "aside build/out build/.staging-replaced",
            "rename build/.staging build/out",
            "remove build/.staging-replaced",
        ]
    );
}

#[test]
fn regeneration_is_idempotent_and_passes_safety_check_again() {
    let disk = Disk::new(TargetState::Absent);
    let fragments = [mount_carrying_fragment("ent", &["etc/x/y"])];
    disk.run(&fragments, MountMaterialization::Write).unwrap();
    disk.probes.set(0);
    let first: Vec<String> = disk.done.take();
    disk.run(&fragments, MountMaterialization::Write).unwrap();
    let second: Vec<String> = disk.done.take();
    // The same plan again, and then the earlier output is replaced.
    assert_eq!(first[..first.len() - 1], second[..first.len() - 1]);
    assert_eq!(
        second[first.len() - 1..],
        [
            "aside build/out build/.staging-replaced",
            "rename build/.staging build/out",
            "remove build/.staging-replaced",
        ]
    );
}

#[test]
fn write_output_refuses_unsafe_target_dir() {
    let disk = Disk::new(directory(&["README.md"]));
    let err = disk.run(&[test_loaded_fragment("epel")], MountMaterialization::Skip).unwrap_err();
    assert!(err.contains("was not generated by this tool"), "{err}");
    assert_eq!(*disk.done.borrow(), vec!["probe build/out"]);
}

#[test]
fn write_output_leaves_no_partial_tree_on_materialization_failure() {
    let prior = ["fragments", "Containerfile", SENTINEL_FILENAME];
    let mut disk = Disk::new(directory(&prior));
    disk.fails_at = Some("materialize quay.io/test/bad-frag:1");
    disk.reason = "simulated registry failure";
    let err = disk
        .run(
            &[test_loaded_fragment("good-frag"), test_loaded_fragment("bad-frag")],
            MountMaterialization::Skip,
        )
        .unwrap_err();
    assert_eq!(err, "materializing fragment 'bad-frag': simulated registry failure");
    // The prior output stands as it was, and the staging directory is gone.
    assert!(!disk.replaced());
    assert!(matches!(&disk.target.borrow().state, TargetState::Directory(e) if *e == prior));
    assert_eq!(disk.last(), "discard build/.staging");
    assert!(disk
        .done
        .borrow()
        .iter()
        .all(|d| !d.contains("build/out") || d == "probe build/out"));
}

#[test]
fn every_failure_before_the_swap_leaves_the_target_alone() {
    let cases = [
        ("probe", "reading build/out: boom"),
        ("mkdir build", "creating build: boom"),
        ("stage", "creating staging directory for self-contained output: boom"),
        ("write build/.staging/Containerfile", "writing staged Containerfile: boom"),
        ("copy", "copying manifest m.yaml into staged output: boom"),
        ("write build/.staging/.osfragment", "writing sentinel marker: boom"),
        ("mkdir build/.staging", "creating build/.staging/fragments: boom"),
        ("restrict", "restricting mount material for fragment 'ent': boom"),
        ("write build/.staging/.gitignore", "writing the mount material .gitignore: boom"),
        ("chmod", "normalizing permissions on build/.staging: boom"),
    ];
    for (k, (at, message)) in cases.into_iter().enumerate() {
        let mut disk = Disk::new(directory(&[]));
        disk.fails_at = Some(at);
        let fragments = [mount_carrying_fragment("ent", &["etc/x/y"])];
        assert_eq!(disk.run(&fragments, MountMaterialization::Write).unwrap_err(), message);
        assert!(!disk.replaced(), "{at}");
        // Once there is a staging directory, a failure discards it.
        assert_eq!(disk.last() == "discard build/.staging", k > 2, "{at}");
    }
}

#[test]
fn a_target_that_cannot_be_removed_is_left_untouched() {
    let mut disk = Disk::new(directory(&[SENTINEL_FILENAME, "Containerfile"]));
    disk.fails_at = Some("aside");
    assert_eq!(
        disk.run(&[], MountMaterialization::Skip).unwrap_err(),
        "removing existing build/out: boom"
    );
    let done = disk.done.borrow();
    assert_eq!(
        done[done.len() - 2..],
        ["aside build/out build/.staging-replaced", "discard build/.staging"]
    );
    assert!(!done.iter().any(|d| d.starts_with("rename") || d.starts_with("remove")));
}

#[test]
fn a_failing_move_restores_the_target_and_keeps_the_staged_output() {
    let moved = "moving staged output build/.staging into build/out; the generated output is complete and left at the staging path: boom";
    let mut disk = Disk::new(directory(&[]));
    disk.fails_at = Some("rename");
    assert_eq!(disk.run(&[], MountMaterialization::Skip).unwrap_err(), moved);
    assert_eq!(disk.last(), "restore build/.staging-replaced build/out");

    let mut disk = Disk::new(TargetState::Absent);
    disk.fails_at = Some("rename");
    assert_eq!(disk.run(&[], MountMaterialization::Skip).unwrap_err(), moved);
    assert_eq!(disk.last(), "rename build/.staging build/out");

    let mut disk = Disk::new(directory(&[]));
    disk.fails_at = Some("re");
    let err = disk.run(&[], MountMaterialization::Skip).unwrap_err();
    assert_eq!(
        err,
        format!("{moved}; moving the previous output back from build/.staging-replaced: boom")
    );
}

#[test]
fn a_replaced_output_that_cannot_be_removed_is_no_failure() {
    let mut disk = Disk::new(directory(&[]));
    disk.fails_at = Some("remove");
    let notice = disk.run(&[], MountMaterialization::Skip).unwrap();
    assert_eq!(
        notice.as_deref(),
        Some("removing the replaced output build/.staging-replaced; the new output is in place at build/out: boom")
    );
    assert!(disk.replaced());
    assert_eq!(disk.last(), "remove build/.staging-replaced");

    let disk = Disk::new(directory(&[]));
    assert_eq!(disk.run(&[], MountMaterialization::Skip), Ok(None));
}

#[test]
fn write_output_refuses_when_target_gains_a_foreign_file_during_materialization() {
    let mut disk = Disk::new(directory(&[]));
    disk.later = Some(probe(directory(&["README.md"])));
    let err = disk.run(&[test_loaded_fragment("epel")], MountMaterialization::Skip).unwrap_err();
    assert!(err.contains("was not generated by this tool"), "{err}");
    assert!(!disk.replaced());
    assert_eq!(disk.last(), "discard build/.staging");
}

#[test]
fn write_output_refuses_symlinked_target() {
    let disk = Disk::new(directory(&[]));
    disk.target.borrow_mut().is_symlink = true;
    let err = disk.run(&[], MountMaterialization::Skip).unwrap_err();
    assert!(err.contains("is a symlink"), "{err}");
    assert!(!disk.replaced());
}

#[test]
fn write_output_refuses_dangling_symlink_target() {
    let disk = Disk::new(TargetState::Absent);
    disk.target.borrow_mut().is_symlink = true;
    let err = disk.run(&[], MountMaterialization::Skip).unwrap_err();
    assert!(err.contains("is a symlink"), "{err}");
    assert!(!disk.replaced());
}

#[test]
fn an_answer_that_does_not_fit_stops_the_run() {
    let job = OutputJob {
        dir: "out",
        manifest_path: "m.yaml",
        containerfile: "",
        fragments: &[],
        mounts: MountMaterialization::Skip,
    };
    let err = write_output(&job, |_: &OutputAction| OutputEvent::Done).unwrap_err();
    assert_eq!(err, "reading out: unexpected answer");
}

#[test]
fn marker_files_say_what_they_are() {
    assert_eq!(sentinel_contents(), "osfragment-assemble v0.1.0\n");
    let ignore = mount_gitignore_contents();
    assert!(ignore.starts_with("# Written by osfragment-assemble.\n#\n"));
    assert!(ignore.ends_with("\nfragments/*/mount/\n"));
    assert_eq!(ignore.lines().filter(|l| !l.starts_with('#')).count(), 1);
}
