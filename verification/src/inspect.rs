//! What `inspect` shows of a fragment, from a local directory or from a
//! registry.

use vstd::prelude::*;

use crate::fragment::{Fragment, FragmentView};
use crate::loader;
use crate::loader::{validate_hooks_entrypoint, LoadedFragment};
use crate::mount;
use crate::mount::{derive_mount_points, empty_mount_notice, targets, MOUNT_SECTION_NOTE};
use crate::path;
use crate::path::{sort_list, strip_prefix, ListOrder};
use crate::text;
use crate::text::{join, starts_with};

verus! {

/// A path as it is shown below the directory `prefix`.
pub open spec fn displayed(p: Seq<char>, prefix: Seq<char>) -> Seq<char> {
    match path::stripped(p, prefix) {
        Some(rel) => rel,
        None => p,
    }
}

/// A path as it is shown below the directory `prefix`.
fn display(p: &String, prefix: &str) -> (out: String)
    ensures
        out@ == displayed(p@, prefix@),
{
    match strip_prefix(p.as_str(), prefix) {
        Some(rel) => rel,
        None => p.clone(),
    }
}

/// The files found below the directory `prefix` of a fragment, as they are
/// shown: relative to that directory, in order.
pub open spec fn display_list(found: Seq<Seq<char>>, prefix: Seq<char>) -> Seq<Seq<char>> {
    path::sorted(ListOrder::Texts, found.map_values(|p: Seq<char>| displayed(p, prefix)))
}

/// The files found below the directory `prefix` of a fragment, given by their
/// paths in the fragment, as they are shown.
pub fn collect_display_paths(found: &[String], prefix: &str) -> (out: Vec<String>)
    ensures
        text::texts(out@) == display_list(text::texts(found@), prefix@),
{
    let ghost shown = text::texts(found@).map_values(|p: Seq<char>| displayed(p, prefix@));
    let mut list: Vec<String> = Vec::new();
    for i in 0..found.len()
        invariant
            shown == text::texts(found@).map_values(|p: Seq<char>| displayed(p, prefix@)),
            text::texts(list@) == shown.take(i as int),
    {
        let ghost before = text::texts(list@);
        let p = display(&found[i], prefix);
        let ghost added = p@;
        assert(shown[i as int] == added);
        list.push(p);
        assert(text::texts(list@) =~= before.push(added));
        assert(text::texts(list@) =~= shown.take(i + 1));
    }
    assert(shown.take(shown.len() as int) =~= shown);
    sort_list(ListOrder::Texts, &list)
}

/// The paths of a loaded fragment's tree, as they are shown.
pub open spec fn tree_display(paths: Seq<Seq<char>>) -> Seq<Seq<char>>
    decreases paths.len(),
{
    if paths.len() == 0 {
        Seq::empty()
    } else if "tree/"@.is_prefix_of(paths.last()) {
        tree_display(paths.drop_last()).push(displayed(paths.last(), "tree/"@))
    } else {
        tree_display(paths.drop_last())
    }
}

/// The paths of a loaded fragment's tree, as they are shown.
fn tree_display_paths(paths: &[String]) -> (out: Vec<String>)
    ensures
        text::texts(out@) == tree_display(text::texts(paths@)),
{
    let ghost all = text::texts(paths@);
    let mut out: Vec<String> = Vec::new();
    assert(text::texts(out@) =~= tree_display(all.take(0)));
    for i in 0..paths.len()
        invariant
            all == text::texts(paths@),
            text::texts(out@) == tree_display(all.take(i as int)),
    {
        let ghost before = text::texts(out@);
        assert(all.take(i + 1).drop_last() =~= all.take(i as int));
        assert(all.take(i + 1).last() == paths@[i as int]@);
        if starts_with(paths[i].as_str(), "tree/") {
            let p = display(&paths[i], "tree/");
            let ghost added = p@;
            out.push(p);
            assert(text::texts(out@) =~= before.push(added));
        }
    }
    assert(all.take(all.len() as int) =~= all);
    out
}

/// The `mount/` section for one fragment: the derived targets, the notice
/// for a `mount/` directory that holds no files, and the annotation drift
/// warning. Drift has no counterpart on the local-directory path, which reads
/// no registry annotation to drift against, so it is always `None` there.
#[derive(Debug, Clone)]
pub struct MountSection {
    pub targets: Vec<String>,
    pub notice: Option<String>,
    pub drift: Option<String>,
}

/// What a [`MountSection`] says.
#[verifier::ext_equal]
pub struct SectionView {
    pub targets: Seq<Seq<char>>,
    pub notice: Option<Seq<char>>,
    pub drift: Option<Seq<char>>,
}

impl View for MountSection {
    type V = SectionView;

    open spec fn view(&self) -> SectionView {
        SectionView {
            targets: text::texts(self.targets@),
            notice: text::opt_text(self.notice),
            drift: text::opt_text(self.drift),
        }
    }
}

/// The section for a fragment's mount points.
pub open spec fn section_of(
    fragment_name: Seq<char>,
    has_mount_dir: bool,
    points: Seq<Seq<char>>,
    drift: Option<Seq<char>>,
) -> SectionView {
    SectionView {
        targets: mount::target_texts(points),
        notice: if has_mount_dir && points.len() == 0 {
            Some(mount::empty_mount_text(fragment_name))
        } else {
            None
        },
        drift,
    }
}

/// `r` is the section for a local fragment whose `mount/` directory holds
/// `files`, or what is said of a misplaced file.
pub open spec fn local_section(
    fragment_name: Seq<char>,
    has_mount_dir: bool,
    files: Seq<Seq<char>>,
    r: Result<MountSection, String>,
) -> bool {
    match mount::misplaced_file(files) {
        Some(file) => r matches Err(e) && e@ == mount::misplaced_text(fragment_name, file),
        None => exists|points: Seq<Seq<char>>|
            {
                &&& #[trigger] mount::derived_from(points, files)
                &&& r matches Ok(section)
                &&& section@ == section_of(fragment_name, has_mount_dir, points, None)
            },
    }
}

/// Build the section from a local fragment directory, reaching no registry.
///
/// This is the pre-publish confirmation surface: run against the fragment
/// directory it shows the targets generation will derive, before the
/// fragment is published anywhere.
pub fn local_mount_section(
    files: &[String],
    has_mount_dir: bool,
    fragment_name: &str,
) -> (r: Result<MountSection, String>)
    ensures
        local_section(fragment_name@, has_mount_dir, text::texts(files@), r),
{
    match derive_mount_points(fragment_name, files) {
        Err(e) => Err(e.message()),
        Ok(derived) => {
            let notice = empty_mount_notice(fragment_name, has_mount_dir, &derived);
            let section = MountSection { targets: targets(&derived), notice, drift: None };
            proof {
                let points = mount::point_paths(derived@);
                assert(points.len() == derived@.len());
                assert(mount::derived_from(points, text::texts(files@)));
                assert(section@ =~= section_of(fragment_name@, has_mount_dir, points, None));
            }
            Ok(section)
        },
    }
}

/// Build the section for a registry-loaded fragment, from evidence already
/// carried on `LoadedFragment`. The load derives the mount points and the
/// drift warning but prints neither: that choice is caller-owned so the same
/// load path serves `list`, which stays silent, and generation, which reports
/// them when it validates.
pub fn registry_mount_section(loaded: &LoadedFragment) -> (section: MountSection)
    ensures
        section@ == section_of(
            loaded@.fragment.name,
            loaded@.has_mount_dir,
            loaded@.mount_points,
            loaded@.drift_warning,
        ),
{
    let notice = empty_mount_notice(
        loaded.fragment.name.as_str(),
        loaded.has_mount_dir,
        &loaded.mount_points,
    );
    let drift = match &loaded.drift_warning {
        Some(warning) => Some(warning.clone()),
        None => None,
    };
    assert(loaded@.mount_points.len() == loaded.mount_points@.len());
    MountSection { targets: targets(&loaded.mount_points), notice, drift }
}

/// The lines of a list, set off from the heading above it.
pub open spec fn entries(lines: Seq<Seq<char>>) -> Seq<Seq<char>> {
    lines.map_values(|l: Seq<char>| "  "@ + l)
}

/// Appends the lines of a list, set off from the heading above it.
fn push_entries(out: &mut Vec<String>, lines: &[String])
    ensures
        text::texts(final(out)@) == text::texts(old(out)@) + entries(text::texts(lines@)),
{
    let ghost start = text::texts(out@);
    let ghost all = entries(text::texts(lines@));
    assert(start + all.take(0) =~= start);
    for i in 0..lines.len()
        invariant
            all == entries(text::texts(lines@)),
            text::texts(out@) == start + all.take(i as int),
    {
        let ghost before = text::texts(out@);
        let mut line = "  ".to_owned();
        line.append(lines[i].as_str());
        let ghost added = line@;
        assert(all[i as int] == added);
        out.push(line);
        assert(text::texts(out@) =~= before.push(added));
        assert(text::texts(out@) =~= start + all.take(i + 1));
    }
    assert(all.take(all.len() as int) =~= all);
}

/// Appends one line.
fn push_line(out: &mut Vec<String>, line: &str)
    ensures
        text::texts(final(out)@) == text::texts(old(out)@).push(line@),
{
    let ghost before = text::texts(out@);
    out.push(line.to_owned());
    assert(text::texts(out@) =~= before.push(line@));
}

/// Appends a labelled line.
fn push_labelled(out: &mut Vec<String>, label: &str, value: &str)
    ensures
        text::texts(final(out)@) == text::texts(old(out)@).push(label@ + value@),
{
    let ghost before = text::texts(out@);
    let mut line = label.to_owned();
    line.append(value);
    let ghost added = line@;
    out.push(line);
    assert(text::texts(out@) =~= before.push(added));
}

/// What is printed for an inspection: on standard output and on standard
/// error, line by line.
#[derive(Debug, Clone)]
pub struct Inspection {
    pub stdout: Vec<String>,
    pub stderr: Vec<String>,
}

/// What the metadata of a fragment shows as.
pub open spec fn metadata_lines(fragment: FragmentView) -> Seq<Seq<char>> {
    let name = seq!["Fragment: "@ + fragment.name + " v"@ + fragment.version];
    let vendor = match fragment.vendor {
        Some(vendor) => name.push("Vendor:   "@ + vendor),
        None => name,
    };
    let repos = if fragment.repos.len() > 0 {
        vendor.push("Repos:    "@ + text::joined(fragment.repos, ", "@))
    } else {
        vendor
    };
    if fragment.required.len() > 0 {
        repos.push("Packages: "@ + text::joined(fragment.required, ", "@))
    } else {
        repos
    }
}

/// What the tree of a fragment shows as: nothing where it is empty.
pub open spec fn tree_lines(tree_paths: Seq<Seq<char>>) -> Seq<Seq<char>> {
    if tree_paths.len() > 0 {
        seq![Seq::<char>::empty(), "tree/"@] + entries(tree_paths)
    } else {
        Seq::empty()
    }
}

/// What the mounts of a fragment show as on standard output: nothing where
/// there are none.
pub open spec fn mount_lines(targets: Seq<Seq<char>>) -> Seq<Seq<char>> {
    if targets.len() > 0 {
        (seq![Seq::<char>::empty(), "mount/"@] + entries(targets)).push(MOUNT_SECTION_NOTE@)
    } else {
        Seq::empty()
    }
}

/// What the hooks of a fragment show as.
pub open spec fn hook_lines(hook_paths: Seq<Seq<char>>) -> Seq<Seq<char>> {
    if hook_paths.len() > 0 {
        seq![Seq::<char>::empty(), "hooks/"@] + entries(hook_paths)
    } else {
        seq![Seq::<char>::empty(), "hooks/ (none)"@]
    }
}

/// What an inspection prints on standard output.
pub open spec fn shown_on_stdout(
    fragment: FragmentView,
    tree_paths: Seq<Seq<char>>,
    hook_paths: Seq<Seq<char>>,
    section: SectionView,
) -> Seq<Seq<char>> {
    metadata_lines(fragment) + tree_lines(tree_paths) + mount_lines(section.targets) + hook_lines(
        hook_paths,
    )
}

/// What an inspection prints on standard error: the notice and the drift
/// warning.
pub open spec fn shown_on_stderr(section: SectionView) -> Seq<Seq<char>> {
    let notice = match section.notice {
        Some(notice) => seq![notice],
        None => Seq::empty(),
    };
    match section.drift {
        Some(drift) => notice.push(drift),
        None => notice,
    }
}

/// What an inspection prints.
pub open spec fn shows(
    inspection: Inspection,
    fragment: FragmentView,
    tree_paths: Seq<Seq<char>>,
    hook_paths: Seq<Seq<char>>,
    section: SectionView,
) -> bool {
    &&& text::texts(inspection.stdout@) == shown_on_stdout(
        fragment,
        tree_paths,
        hook_paths,
        section,
    )
    &&& text::texts(inspection.stderr@) == shown_on_stderr(section)
}

/// Appends what the metadata of a fragment shows as.
fn push_metadata(out: &mut Vec<String>, fragment: &Fragment)
    requires
        old(out)@.len() == 0,
    ensures
        text::texts(final(out)@) == metadata_lines(fragment@),
{
    let mut name = "Fragment: ".to_owned();
    name.append(fragment.name.as_str());
    name.append(" v");
    name.append(fragment.version.as_str());
    push_line(out, name.as_str());
    assert(text::texts(out@) =~= seq![name@]);
    if let Some(vendor) = &fragment.vendor {
        push_labelled(out, "Vendor:   ", vendor.as_str());
    }
    assert(fragment@.repos.len() == fragment.provides.repos@.len());
    assert(fragment@.required.len() == fragment.packages.required@.len());
    if fragment.provides.repos.len() > 0 {
        push_labelled(out, "Repos:    ", join(&fragment.provides.repos, ", ").as_str());
    }
    if fragment.packages.required.len() > 0 {
        push_labelled(out, "Packages: ", join(&fragment.packages.required, ", ").as_str());
    }
}

/// What is shown of a fragment, given its paths as they are shown and its
/// mount section. The section is silent when the fragment carries no mounts
/// and there is nothing to say about them.
pub fn inspection(
    fragment: &Fragment,
    tree_paths: &[String],
    hook_paths: &[String],
    section: &MountSection,
) -> (r: Inspection)
    ensures
        shows(
            r,
            fragment@,
            text::texts(tree_paths@),
            text::texts(hook_paths@),
            section@,
        ),
{
    let mut stdout: Vec<String> = Vec::new();
    push_metadata(&mut stdout, fragment);
    let ghost metadata = text::texts(stdout@);
    if tree_paths.len() > 0 {
        push_line(&mut stdout, "");
        push_line(&mut stdout, "tree/");
        push_entries(&mut stdout, tree_paths);
    }
    let ghost with_tree = text::texts(stdout@);
    proof {
        reveal_strlit("");
        assert(""@ =~= Seq::<char>::empty());
        assert(text::texts(tree_paths@).len() == tree_paths@.len());
        assert(with_tree =~= metadata + tree_lines(text::texts(tree_paths@)));
    }
    if section.targets.len() > 0 {
        push_line(&mut stdout, "");
        push_line(&mut stdout, "mount/");
        push_entries(&mut stdout, &section.targets);
        push_line(&mut stdout, MOUNT_SECTION_NOTE);
    }
    let ghost with_mounts = text::texts(stdout@);
    proof {
        assert(section@.targets.len() == section.targets@.len());
        assert(with_mounts =~= with_tree + mount_lines(section@.targets));
    }
    push_line(&mut stdout, "");
    if hook_paths.len() > 0 {
        push_line(&mut stdout, "hooks/");
        push_entries(&mut stdout, hook_paths);
    } else {
        push_line(&mut stdout, "hooks/ (none)");
    }
    proof {
        assert(text::texts(hook_paths@).len() == hook_paths@.len());
        assert(text::texts(stdout@) =~= with_mounts + hook_lines(text::texts(hook_paths@)));
    }
    let mut stderr: Vec<String> = Vec::new();
    assert(text::texts(stderr@) =~= Seq::empty());
    if let Some(notice) = &section.notice {
        push_line(&mut stderr, notice.as_str());
        assert(text::texts(stderr@) =~= seq![notice@]);
    }
    if let Some(drift) = &section.drift {
        push_line(&mut stderr, drift.as_str());
    }
    Inspection { stdout, stderr }
}

/// A fragment directory as it was found on disk. The paths are those of files
/// in the fragment, in any order.
#[derive(Debug, Clone)]
pub struct LocalFragment {
    pub fragment: Fragment,
    /// Files below `tree/`.
    pub tree: Vec<String>,
    /// Files below `hooks/`, at any depth.
    pub hooks: Vec<String>,
    /// Files below `mount/`.
    pub mounts: Vec<String>,
    /// The mode of `hooks/entrypoint`, when it is a regular file.
    pub entrypoint_mode: Option<u32>,
    /// Whether `mount/` is a directory.
    pub has_mount_dir: bool,
}

/// What is inspected.
#[derive(Debug, Clone)]
pub enum InspectTarget {
    Directory(LocalFragment),
    Registry(LoadedFragment),
}

/// `r` is what inspecting a fragment directory gives: hooks must have an
/// entrypoint, and no file may lie directly under `mount/`.
pub open spec fn local_inspection(local: LocalFragment, r: Result<Inspection, String>) -> bool {
    let name = local.fragment.name@;
    let hooks = entrypoint_rule(name, local.hooks@.len(), local.entrypoint_mode);
    if hooks is Some {
        r matches Err(e) && e@ == hooks->0
    } else {
        exists|section: Result<MountSection, String>|
            {
                &&& #[trigger] local_section(
                    name,
                    local.has_mount_dir,
                    display_list(text::texts(local.mounts@), "mount"@),
                    section,
                )
                &&& match section {
                    Err(e) => r matches Err(f) && f@ == e@,
                    Ok(section) => r matches Ok(inspection) && shows(
                        inspection,
                        local.fragment@,
                        display_list(text::texts(local.tree@), "tree"@),
                        display_list(text::texts(local.hooks@), "hooks"@),
                        section@,
                    ),
                }
            }
    }
}

/// Why a fragment with the given number of hook files is refused.
pub open spec fn entrypoint_rule(
    fragment_name: Seq<char>,
    hook_count: nat,
    entrypoint_mode: Option<u32>,
) -> Option<Seq<char>> {
    if hook_count == 0 {
        None
    } else {
        loader::entrypoint_failure(fragment_name, entrypoint_mode)
    }
}

/// Inspects a fragment directory.
fn inspect_local(local: &LocalFragment) -> (r: Result<Inspection, String>)
    ensures
        local_inspection(*local, r),
{
    let name = local.fragment.name.as_str();
    let tree_paths = collect_display_paths(&local.tree, "tree");
    let hook_paths = collect_display_paths(&local.hooks, "hooks");
    if local.hooks.len() > 0 {
        if let Err(e) = validate_hooks_entrypoint(name, local.entrypoint_mode) {
            return Err(e);
        }
    }
    let mount_files = collect_display_paths(&local.mounts, "mount");
    let section = local_mount_section(&mount_files, local.has_mount_dir, name);
    assert(local_section(
        name@,
        local.has_mount_dir,
        display_list(text::texts(local.mounts@), "mount"@),
        section,
    ));
    match section {
        Err(e) => Err(e),
        Ok(section) => Ok(inspection(&local.fragment, &tree_paths, &hook_paths, &section)),
    }
}

/// `r` is what inspecting a target gives.
pub open spec fn inspects(target: InspectTarget, r: Result<Inspection, String>) -> bool {
    match target {
        InspectTarget::Directory(local) => local_inspection(local, r),
        InspectTarget::Registry(loaded) => r matches Ok(inspection) && shows(
            inspection,
            loaded@.fragment,
            tree_display(loaded@.tree_paths),
            loaded@.hook_paths,
            section_of(
                loaded@.fragment.name,
                loaded@.has_mount_dir,
                loaded@.mount_points,
                loaded@.drift_warning,
            ),
        ),
    }
}

/// Inspect a fragment: its metadata, its tree, its mounts and its hooks.
pub fn run_inspect(target: &InspectTarget) -> (r: Result<Inspection, String>)
    ensures
        inspects(*target, r),
{
    match target {
        InspectTarget::Directory(local) => inspect_local(local),
        InspectTarget::Registry(loaded) => {
            let section = registry_mount_section(loaded);
            let tree_paths = tree_display_paths(&loaded.tree_paths);
            Ok(inspection(&loaded.fragment, &tree_paths, &loaded.hook_paths, &section))
        },
    }
}

/// How many lines the metadata of a fragment takes: one, and one more for
/// each of the vendor, the repositories and the packages that it has.
pub open spec fn metadata_count(fragment: FragmentView) -> int {
    1 + if fragment.vendor is Some {
        1int
    } else {
        0
    } + if fragment.repos.len() > 0 {
        1int
    } else {
        0
    } + if fragment.required.len() > 0 {
        1int
    } else {
        0
    }
}

/// How many lines a section takes that is shown only where it holds
/// something: an empty line, a heading, and one for each entry.
pub open spec fn section_count(count: nat) -> int {
    if count > 0 {
        count + 2int
    } else {
        0
    }
}

/// An inspection shows everything there is, line by line: the metadata, then
/// every path of the tree below `tree/`, every mount target below `mount/`
/// and every hook below `hooks/`, each set off by two spaces, in order and
/// with nothing between them. A tree or mounts that hold nothing are not
/// mentioned, and missing hooks are.
pub proof fn law_inspection_shows_every_path(
    inspection: Inspection,
    fragment: FragmentView,
    tree_paths: Seq<Seq<char>>,
    hook_paths: Seq<Seq<char>>,
    section: SectionView,
)
    requires
        shows(inspection, fragment, tree_paths, hook_paths, section),
    ensures
        ({
            let out = inspection.stdout@;
            let tree = metadata_count(fragment);
            let mounts = tree + section_count(tree_paths.len());
            let hooks = mounts + section_count(section.targets.len()) + if section.targets.len()
                > 0 {
                1int
            } else {
                0
            };
            &&& out.len() == hooks + 2 + hook_paths.len()
            &&& tree_paths.len() > 0 ==> {
                &&& out[tree]@.len() == 0
                &&& out[tree + 1]@ == "tree/"@
                &&& forall|k: int|
                    0 <= k < tree_paths.len() ==> out[tree + 2 + k]@ == "  "@
                        + #[trigger] tree_paths[k]
            }
            &&& section.targets.len() > 0 ==> {
                &&& out[mounts]@.len() == 0
                &&& out[mounts + 1]@ == "mount/"@
                &&& forall|k: int|
                    0 <= k < section.targets.len() ==> out[mounts + 2 + k]@ == "  "@
                        + #[trigger] section.targets[k]
                &&& out[hooks - 1]@
                    == "mounted during package and hook steps, never committed by the builder"@
            }
            &&& out[hooks]@.len() == 0
            &&& out[hooks + 1]@ == if hook_paths.len() > 0 {
                "hooks/"@
            } else {
                "hooks/ (none)"@
            }
            &&& forall|k: int|
                0 <= k < hook_paths.len() ==> out[hooks + 2 + k]@ == "  "@
                    + #[trigger] hook_paths[k]
        }),
{
    let out = inspection.stdout@;
    let all = shown_on_stdout(fragment, tree_paths, hook_paths, section);
    assert(text::texts(out).len() == out.len());
    assert forall|k: int| 0 <= k < out.len() implies (#[trigger] out[k])@ == all[k] by {
        assert(text::texts(out)[k] == out[k]@);
    }
    let a = metadata_lines(fragment);
    let b = tree_lines(tree_paths);
    let c = mount_lines(section.targets);
    let d = hook_lines(hook_paths);
    assert(a.len() == metadata_count(fragment));
    assert(b.len() == section_count(tree_paths.len()));
    let tree = a.len() as int;
    let mounts = tree + b.len();
    let hooks = mounts + c.len();
    assert forall|k: int| 0 <= k < b.len() implies all[tree + k] == #[trigger] b[k] by {}
    assert forall|k: int| 0 <= k < c.len() implies all[mounts + k] == #[trigger] c[k] by {}
    assert forall|k: int| 0 <= k < d.len() implies all[hooks + k] == #[trigger] d[k] by {}
    if tree_paths.len() > 0 {
        assert(b[0].len() == 0 && b[1] == "tree/"@);
        assert forall|k: int| 0 <= k < tree_paths.len() implies out[tree + 2 + k]@ == "  "@
            + #[trigger] tree_paths[k] by {
            assert(b[2 + k] == entries(tree_paths)[k]);
        }
    }
    if section.targets.len() > 0 {
        assert(c[0].len() == 0 && c[1] == "mount/"@);
        assert forall|k: int| 0 <= k < section.targets.len() implies out[mounts + 2 + k]@ == "  "@
            + #[trigger] section.targets[k] by {
            assert(c[2 + k] == entries(section.targets)[k]);
        }
        assert(c[c.len() - 1] == MOUNT_SECTION_NOTE@);
        assert(all[mounts + (c.len() - 1)] == c[c.len() - 1]);
    }
    assert(d[0].len() == 0);
    assert(all[hooks + 0] == d[0]);
    assert(all[hooks + 1] == d[1]);
    assert forall|k: int| 0 <= k < hook_paths.len() implies out[hooks + 2 + k]@ == "  "@
        + #[trigger] hook_paths[k] by {
        assert(d[2 + k] == entries(hook_paths)[k]);
    }
}

/// An inspection begins with the name and the version, and then tells the
/// vendor, all the repositories and all the packages, as far as there are
/// any. Standard error gets the notice and the drift warning, each as it is
/// and in that order, and nothing else.
pub proof fn law_inspection_tells_the_metadata(
    inspection: Inspection,
    fragment: FragmentView,
    tree_paths: Seq<Seq<char>>,
    hook_paths: Seq<Seq<char>>,
    section: SectionView,
)
    requires
        shows(inspection, fragment, tree_paths, hook_paths, section),
    ensures
        ({
            let out = inspection.stdout@;
            let said = inspection.stderr@;
            let count = metadata_count(fragment);
            let listed = |parts: Seq<Seq<char>>|
                Seq::new(
                    parts.len(),
                    |k: int|
                        if k == 0 {
                            parts[k]
                        } else {
                            ", "@ + parts[k]
                        },
                ).flatten();
            &&& out[0]@ == "Fragment: "@ + fragment.name + " v"@ + fragment.version
            &&& fragment.vendor matches Some(vendor) ==> out[1]@ == "Vendor:   "@ + vendor
            &&& fragment.repos.len() > 0 ==> out[if fragment.required.len() > 0 {
                count - 2
            } else {
                count - 1
            }]@ == "Repos:    "@ + listed(fragment.repos)
            &&& fragment.required.len() > 0 ==> out[count - 1]@ == "Packages: "@ + listed(
                fragment.required,
            )
            &&& section.notice matches Some(notice) ==> said.len() > 0 && said[0]@ == notice
            &&& section.drift matches Some(drift) ==> said.len() > 0 && said.last()@ == drift
            &&& said.len() == if section.notice is Some {
                1int
            } else {
                0
            } + if section.drift is Some {
                1int
            } else {
                0
            }
        }),
{
    let out = inspection.stdout@;
    let said = inspection.stderr@;
    let all = shown_on_stdout(fragment, tree_paths, hook_paths, section);
    let err = shown_on_stderr(section);
    assert(text::texts(out).len() == out.len());
    assert(text::texts(said).len() == said.len());
    assert forall|k: int| 0 <= k < out.len() implies (#[trigger] out[k])@ == all[k] by {
        assert(text::texts(out)[k] == out[k]@);
    }
    assert forall|k: int| 0 <= k < said.len() implies (#[trigger] said[k])@ == err[k] by {
        assert(text::texts(said)[k] == said[k]@);
    }
    let a = metadata_lines(fragment);
    assert(a.len() == metadata_count(fragment));
    assert forall|k: int| 0 <= k < a.len() implies all[k] == #[trigger] a[k] by {}
    text::law_joining_keeps_every_part(fragment.repos, ", "@);
    text::law_joining_keeps_every_part(fragment.required, ", "@);
    assert(a[0] == "Fragment: "@ + fragment.name + " v"@ + fragment.version);
}

/// Files of a directory are shown by what stands behind the directory and a
/// separator: all of them, each as often as it was found, in the order of
/// their texts.
pub proof fn law_found_files_are_all_shown(
    found: Seq<Seq<char>>,
    prefix: Seq<char>,
    rels: Seq<Seq<char>>,
)
    requires
        path::plain_name(prefix),
        found.len() == rels.len(),
        forall|i: int|
            0 <= i < found.len() ==> path::ordinary_path(rels[i]) && #[trigger] found[i] == prefix
                + seq!['/'] + rels[i],
    ensures
        display_list(found, prefix).to_multiset() == rels.to_multiset(),
        forall|i: int, j: int|
            0 <= i < j < display_list(found, prefix).len() ==> !path::text_before_from(
                #[trigger] display_list(found, prefix)[j],
                #[trigger] display_list(found, prefix)[i],
                0,
            ),
{
    let mapped = found.map_values(|p: Seq<char>| displayed(p, prefix));
    path::law_ordinary_paths_are_names_between_separators(prefix, prefix);
    assert forall|i: int| 0 <= i < found.len() implies #[trigger] mapped[i] == rels[i] by {
        assert(found[i] == prefix + seq!['/'] + rels[i]);
        path::law_stripping_leaves_what_stands_behind(prefix, rels[i]);
    }
    assert(mapped =~= rels);
    path::law_sorting_orders_the_same_entries(ListOrder::Texts, rels);
    let shown = display_list(found, prefix);
    assert forall|i: int, j: int| 0 <= i < j < shown.len() implies !path::text_before_from(
        #[trigger] shown[j],
        #[trigger] shown[i],
        0,
    ) by {
        assert(!path::sorts_before(ListOrder::Texts, shown[j], shown[i]));
    }
}

/// The tree of a loaded fragment is shown by what stands behind `tree/`: all
/// of it, in order, and nothing that lies elsewhere.
pub proof fn law_loaded_tree_is_all_shown(paths: Seq<Seq<char>>)
    requires
        forall|i: int|
            0 <= i < paths.len() && "tree/"@.is_prefix_of(#[trigger] paths[i])
                ==> path::ordinary_path(paths[i]),
    ensures
        tree_display(paths) == paths.filter(
            |p: Seq<char>| "tree/"@.is_prefix_of(p),
        ).map_values(|p: Seq<char>| p.skip(5)),
    decreases paths.len(),
{
    let wanted = |p: Seq<char>| "tree/"@.is_prefix_of(p);
    let seen = |p: Seq<char>| p.skip(5);
    reveal(Seq::filter);
    if paths.len() > 0 {
        let front = paths.drop_last();
        let last = paths.last();
        assert forall|i: int|
            0 <= i < front.len() && "tree/"@.is_prefix_of(#[trigger] front[i]) implies
            path::ordinary_path(front[i]) by {
            assert(front[i] == paths[i]);
        }
        law_loaded_tree_is_all_shown(front);
        if wanted(last) {
            assert(paths[paths.len() - 1] == last);
            reveal_strlit("tree/");
            reveal_strlit("tree");
            let rel = last.skip(5);
            assert("tree/"@ =~= "tree"@ + seq!['/']);
            assert("tree/"@ =~= last.subrange(0, 5));
            assert(last =~= "tree"@ + seq!['/'] + rel);
            assert(!"tree"@.contains('/'));
            assert("tree"@.len() == 4);
            path::law_ordinary_paths_are_names_between_separators("tree"@, "tree"@);
            path::lemma_ordinary_rest("tree"@, rel);
            path::law_stripping_leaves_what_stands_behind("tree"@, rel);
            path::lemma_trailing_separator("tree"@);
            lemma_strip_with_separator(last, "tree"@, rel);
            assert(displayed(last, "tree/"@) == rel);
            assert(paths.filter(wanted) == front.filter(wanted).push(last));
            assert(paths.filter(wanted).map_values(seen) =~= front.filter(wanted).map_values(
                seen,
            ).push(rel));
        } else {
            assert(paths.filter(wanted).map_values(seen) =~= front.filter(wanted).map_values(seen));
        }
    } else {
        assert(paths.filter(wanted).map_values(seen) =~= Seq::empty());
    }
}

/// A separator behind a directory changes nothing about what is left of a
/// path below it.
proof fn lemma_strip_with_separator(p: Seq<char>, base: Seq<char>, rel: Seq<char>)
    requires
        path::ordinary_path(base),
        path::stripped(p, base) == Some(rel),
    ensures
        path::stripped(p, base + seq!['/']) == Some(rel),
{
    path::lemma_trailing_separator(base);
    path::lemma_ordinary_path(base);
    assert(base.len() > 0) by {
        if base.len() == 0 {
            assert(path::names(base) =~= Seq::empty());
        }
    }
}

/// Inspecting a fragment directory succeeds exactly when it has no hooks or
/// an entrypoint that can be run, and no mount file is misplaced.
pub proof fn law_local_inspection_succeeds_exactly_when(
    local: LocalFragment,
    r: Result<Inspection, String>,
)
    requires
        local_inspection(local, r),
    ensures
        r is Ok <==> {
            &&& local.hooks@.len() == 0 || (local.entrypoint_mode matches Some(mode) && mode
                & 0o111u32 != 0)
            &&& forall|i: int|
                0 <= i < display_list(text::texts(local.mounts@), "mount"@).len()
                    ==> !mount::misplaced(
                    #[trigger] display_list(text::texts(local.mounts@), "mount"@)[i],
                )
        },
{
    mount::lemma_misplaced_file(display_list(text::texts(local.mounts@), "mount"@));
}

/// What an inspection of a fragment directory shows is the directory's own:
/// its tree, its hooks, and the targets of the mount points that its mount
/// files derive, with a notice exactly when there is a `mount/` directory
/// that derives none.
pub proof fn law_local_inspection_shows_the_directory(
    local: LocalFragment,
    inspection: Inspection,
)
    requires
        local_inspection(local, Ok(inspection)),
    ensures
        exists|points: Seq<Seq<char>>, section: SectionView|
            {
                &&& #[trigger] mount::derived_from(
                    points,
                    display_list(text::texts(local.mounts@), "mount"@),
                )
                &&& #[trigger] shows(
                    inspection,
                    local.fragment@,
                    display_list(text::texts(local.tree@), "tree"@),
                    display_list(text::texts(local.hooks@), "hooks"@),
                    section,
                )
                &&& section.targets == points.map_values(|p: Seq<char>| seq!['/'] + p)
                &&& section.notice is Some <==> local.has_mount_dir && points.len() == 0
                &&& section.notice matches Some(notice) ==> notice == "notice: fragment '"@
                    + local.fragment.name@
                    + "' carries a mount/ directory holding no files, so it derives no build mounts and nothing is mounted into the package or hook steps. Put the material at the path it should appear at during the build, for example mount/etc/pki/entitlement/cert.pem."@
                &&& section.drift is None
            },
{
    let name = local.fragment.name@;
    let files = display_list(text::texts(local.mounts@), "mount"@);
    let section = choose|section: Result<MountSection, String>|
        {
            &&& #[trigger] local_section(name, local.has_mount_dir, files, section)
            &&& match section {
                Err(e) => false,
                Ok(section) => shows(
                    inspection,
                    local.fragment@,
                    display_list(text::texts(local.tree@), "tree"@),
                    display_list(text::texts(local.hooks@), "hooks"@),
                    section@,
                ),
            }
        };
    let view = section->Ok_0@;
    let points = choose|points: Seq<Seq<char>>|
        {
            &&& #[trigger] mount::derived_from(points, files)
            &&& view == section_of(name, local.has_mount_dir, points, None)
        };
    reveal_strlit("/");
    assert("/"@ =~= seq!['/']);
    assert(view.targets =~= points.map_values(|p: Seq<char>| seq!['/'] + p));
}

/// What an inspection of a loaded fragment shows is what was loaded: its
/// tree, its hooks, the targets of its mount points, and its drift warning,
/// with a notice exactly when there is a `mount/` directory that derives no
/// mount points.
pub proof fn law_registry_inspection_shows_the_load(
    loaded: LoadedFragment,
    r: Result<Inspection, String>,
)
    requires
        inspects(InspectTarget::Registry(loaded), r),
    ensures
        r matches Ok(inspection) && exists|section: SectionView|
            {
                &&& #[trigger] shows(
                    inspection,
                    loaded.fragment@,
                    tree_display(text::texts(loaded.tree_paths@)),
                    text::texts(loaded.hook_paths@),
                    section,
                )
                &&& section.targets == loaded.mount_points@.map_values(
                    |p: mount::MountPoint| seq!['/'] + p@,
                )
                &&& section.notice is Some <==> loaded.has_mount_dir
                    && loaded.mount_points@.len() == 0
                &&& section.drift == match loaded.drift_warning {
                    Some(warning) => Some(warning@),
                    None => None,
                }
            },
{
    let section = section_of(
        loaded@.fragment.name,
        loaded@.has_mount_dir,
        loaded@.mount_points,
        loaded@.drift_warning,
    );
    reveal_strlit("/");
    assert("/"@ =~= seq!['/']);
    assert(loaded@.mount_points.len() == loaded.mount_points@.len());
    assert(section.targets =~= loaded.mount_points@.map_values(
        |p: mount::MountPoint| seq!['/'] + p@,
    ));
    assert(shows(
        r->Ok_0,
        loaded.fragment@,
        tree_display(text::texts(loaded.tree_paths@)),
        text::texts(loaded.hook_paths@),
        section,
    ));
}

} // verus!
