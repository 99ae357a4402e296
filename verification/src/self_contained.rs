//! Self-contained output mode: materializes fragment payload into a local
//! build context next to the generated Containerfile, then packages the
//! result as a sibling tarball. The emitted Containerfile references no
//! registry image except the base.
//!
//! What is decided here is which action comes next; performing it is the
//! caller's part.

use vstd::prelude::*;

use crate::loader;
use crate::loader::{LoadedFragment, LoadedView};
use crate::mount;
use crate::path;
use crate::path::{file_name, join_path, parent};
use crate::text;
use crate::text::{join, same_text};

verus! {

/// Filename of the sentinel marker written into every self-contained output
/// directory. Its presence, not directory contents, is the ownership proof
/// [`check_target_dir_safe`] relies on: a directory containing a
/// `Containerfile` and `fragments/` for reasons of its own will not
/// coincidentally contain this exact dotfile. The sentinel is a regular file
/// within the directory, so it is part of the committed tree and the packaged
/// archive like everything else the tool writes; a directory checked out from
/// git with the sentinel intact is exactly as regenerable as the one that
/// produced it.
pub const SENTINEL_FILENAME: &'static str = ".osfragment-assemble";

/// Filename of the ignore file `--materialize-mounts` writes into a context
/// that holds mount material.
pub const GITIGNORE_FILENAME: &'static str = ".gitignore";

/// Permission mode applied to the output directory, overriding the 0700 the
/// staging directory was created with. The output is a handoff artifact
/// (committed to git, packaged into a tarball for other pipelines), not a
/// private scratch directory, so it and the resulting tar entries should be
/// normally readable.
pub const OUTPUT_DIR_MODE: u32 = 0o755;

/// Permission mode applied to every directory in a materialized `mount/`
/// subtree: owner only. An explicit exception to [`OUTPUT_DIR_MODE`]'s
/// normally readable handoff contract, because mount material is credential
/// material more often than not and the context and its archive are a durable
/// copy of it.
pub const MOUNT_DIR_MODE: u32 = 0o700;

/// Permission mode applied to every regular file in a materialized `mount/`
/// subtree: owner read/write only, regardless of what the fragment's own
/// layer carried.
pub const MOUNT_FILE_MODE: u32 = 0o600;

/// Contents written to the sentinel file: tool name and version, nothing
/// else. Presence is what [`check_target_dir_safe`] checks, not this exact
/// text, so the format has no compatibility contract to keep.
pub fn sentinel_contents() -> (out: String)
    ensures
        out@ == "osfragment-assemble v0.1.0\n"@,
{
    "osfragment-assemble v0.1.0\n".to_owned()
}

/// Contents of the ignore file: the pattern plus the reason it is there.
///
/// Git does not record file modes, so the owner-only protection applied to
/// the mount subtrees does not survive a commit. The consequence is
/// deliberate: a committed context omits its mount material and fails loudly
/// at build time, at the mount source, and this comment is what makes that
/// failure read as policy rather than mystery.
pub fn mount_gitignore_contents() -> (out: &'static str)
    ensures
        out@ == gitignore_text(),
{
    "# Written by osfragment-assemble.\n#\n# This build context holds build-mount material under fragments/*/mount/,\n# written owner-only on disk. Git does not record file modes, so committing\n# it would publish that material world-readable. While it holds mount\n# material this context is for direct handoff, not for committing.\n#\n# A committed context omits the material, and the build then fails at the\n# mount source rather than building without it.\nfragments/*/mount/\n"
}

/// Contents of the ignore file.
pub open spec fn gitignore_text() -> Seq<char> {
    "# Written by osfragment-assemble.\n#\n# This build context holds build-mount material under fragments/*/mount/,\n# written owner-only on disk. Git does not record file modes, so committing\n# it would publish that material world-readable. While it holds mount\n# material this context is for direct handoff, not for committing.\n#\n# A committed context omits the material, and the build then fails at the\n# mount source rather than building without it.\nfragments/*/mount/\n"@
}

/// What stands at the path of an output directory.
#[derive(Debug, Clone)]
pub enum TargetState {
    /// Nothing.
    Absent,
    /// Something that is no directory.
    NotDirectory,
    /// A directory, with the names of its entries.
    Directory(Vec<String>),
    /// A directory whose entries could not all be read, with the message of
    /// the first that could not.
    Unreadable(String),
}

/// What a [`TargetState`] says.
pub enum TargetView {
    Absent,
    NotDirectory,
    Directory(Seq<Seq<char>>),
    Unreadable(Seq<char>),
}

impl View for TargetState {
    type V = TargetView;

    open spec fn view(&self) -> TargetView {
        match self {
            TargetState::Absent => TargetView::Absent,
            TargetState::NotDirectory => TargetView::NotDirectory,
            TargetState::Directory(entries) => TargetView::Directory(text::texts(entries@)),
            TargetState::Unreadable(e) => TargetView::Unreadable(e@),
        }
    }
}

/// An entry that the tool itself may have written to a self-contained output
/// directory in a prior run.
pub open spec fn tool_generated(entry: Seq<char>) -> bool {
    ||| entry == "Containerfile"@
    ||| entry == "manifest.yaml"@
    ||| entry == "fragments"@
    ||| entry == SENTINEL_FILENAME@
    ||| entry == GITIGNORE_FILENAME@
}

/// A directory that is safe to regenerate: it is empty, or it holds the
/// sentinel and nothing that the tool did not write.
pub open spec fn regenerable(entries: Seq<Seq<char>>) -> bool {
    ||| entries.len() == 0
    ||| {
        &&& forall|i: int| 0 <= i < entries.len() ==> tool_generated(#[trigger] entries[i])
        &&& entries.contains(SENTINEL_FILENAME@)
    }
}

/// Why the output is not written to `dir`, given what stands there.
pub open spec fn unsafe_target(dir: Seq<char>, state: TargetView) -> Option<Seq<char>> {
    match state {
        TargetView::Absent => None,
        TargetView::NotDirectory => Some(
            "--self-contained target "@ + dir
                + " exists and is not a directory; point --self-contained at a directory path instead"@,
        ),
        TargetView::Directory(entries) => if regenerable(entries) {
            None
        } else {
            Some(
                "--self-contained target "@ + dir
                    + " already exists and was not generated by this tool (expected the "@
                    + SENTINEL_FILENAME@
                    + " sentinel plus only tool-generated entries, and nothing else); point --self-contained at a new or empty directory"@,
            )
        },
        TargetView::Unreadable(e) => Some(e),
    }
}

/// Whether the tool may have written the entry.
fn is_tool_generated(entry: &str) -> (r: bool)
    ensures
        r == tool_generated(entry@),
{
    same_text(entry, "Containerfile") || same_text(entry, "manifest.yaml") || same_text(
        entry,
        "fragments",
    ) || same_text(entry, SENTINEL_FILENAME) || same_text(entry, GITIGNORE_FILENAME)
}

/// Whether a directory with the given entries is safe to regenerate.
fn is_regenerable(entries: &[String]) -> (r: bool)
    ensures
        r == regenerable(text::texts(entries@)),
{
    let ghost all = text::texts(entries@);
    if entries.len() == 0 {
        return true;
    }
    let mut has_sentinel = false;
    for i in 0..entries.len()
        invariant
            all == text::texts(entries@),
            all.len() > 0,
            forall|j: int| 0 <= j < i ==> tool_generated(#[trigger] all[j]),
            has_sentinel == all.take(i as int).contains(SENTINEL_FILENAME@),
    {
        assert(all[i as int] == entries@[i as int]@);
        let entry = entries[i].as_str();
        if !is_tool_generated(entry) {
            return false;
        }
        let ghost before = all.take(i as int);
        let ghost now = all.take(i + 1);
        assert(now =~= before.push(entry@));
        let is_sentinel = same_text(entry, SENTINEL_FILENAME);
        proof {
            if before.contains(SENTINEL_FILENAME@) {
                let k = choose|k: int| 0 <= k < before.len() && before[k] == SENTINEL_FILENAME@;
                assert(now[k] == SENTINEL_FILENAME@);
            }
            if is_sentinel {
                assert(now[i as int] == SENTINEL_FILENAME@);
            }
            if now.contains(SENTINEL_FILENAME@) && !is_sentinel {
                let k = choose|k: int| 0 <= k < now.len() && now[k] == SENTINEL_FILENAME@;
                assert(before[k] == SENTINEL_FILENAME@);
            }
        }
        has_sentinel = has_sentinel || is_sentinel;
    }
    assert(all.take(all.len() as int) =~= all);
    has_sentinel
}

/// Refuse to regenerate into a directory that holds anything the tool did
/// not write itself. Absent and empty directories are always safe; a
/// directory containing the sentinel file and no entries outside the
/// tool-generated set is recognized as tool-generated from a prior run and is
/// safe to delete and recreate. The sentinel, not the presence of
/// `Containerfile` and `fragments/` alone, is what proves ownership: those
/// names are common enough that a user's own directory could coincidentally
/// match them, but not this exact dotfile. A directory whose entries could not
/// all be read is refused with that message.
pub fn check_target_dir_safe(dir: &str, state: &TargetState) -> (r: Result<(), String>)
    ensures
        loader::failure_of(r) == unsafe_target(dir@, state@),
{
    match state {
        TargetState::Absent => Ok(()),
        TargetState::NotDirectory => {
            let mut out = "--self-contained target ".to_owned();
            out.append(dir);
            out.append(" exists and is not a directory; point --self-contained at a directory path instead");
            Err(out)
        },
        TargetState::Directory(entries) => {
            if is_regenerable(entries) {
                return Ok(());
            }
            let mut out = "--self-contained target ".to_owned();
            out.append(dir);
            out.append(" already exists and was not generated by this tool (expected the ");
            out.append(SENTINEL_FILENAME);
            out.append(" sentinel plus only tool-generated entries, and nothing else); point --self-contained at a new or empty directory");
            Err(out)
        },
        TargetState::Unreadable(e) => Err(e.clone()),
    }
}

/// Why the output is not written through a symlink.
pub open spec fn symlinked_target(dir: Seq<char>, is_symlink: bool) -> Option<Seq<char>> {
    if is_symlink {
        Some(
            "--self-contained target "@ + dir
                + " is a symlink; point it at a real directory path (this mode replaces the target directory wholesale and will not write through a symlink)"@,
        )
    } else {
        None
    }
}

/// Refuse a target path that is itself a symlink, before anything
/// destructive runs.
///
/// Every other check looks at what a symlink leads to. That makes a symlinked
/// target ambiguous in a way worth refusing outright rather than resolving
/// silently: the safety check would read the contents behind the link to
/// authorize the write, while the path actually removed and replaced is the
/// link. A dangling symlink is the mirror image, reading as absent and
/// failing only at the final rename. Both are refused here with a message
/// that names the symlink.
pub fn check_target_not_symlink(dir: &str, is_symlink: bool) -> (r: Result<(), String>)
    ensures
        loader::failure_of(r) == symlinked_target(dir@, is_symlink),
{
    if is_symlink {
        let mut out = "--self-contained target ".to_owned();
        out.append(dir);
        out.append(" is a symlink; point it at a real directory path (this mode replaces the target directory wholesale and will not write through a symlink)");
        return Err(out);
    }
    Ok(())
}

/// What was found at the path of an output directory: whether it is a
/// symlink, and what stands there when symlinks are followed.
#[derive(Debug, Clone)]
pub struct TargetProbe {
    pub is_symlink: bool,
    pub state: TargetState,
}

/// Why the output is not written to `dir`, given what was found there.
pub open spec fn refused_target(dir: Seq<char>, probe: TargetProbe) -> Option<Seq<char>> {
    match symlinked_target(dir, probe.is_symlink) {
        Some(e) => Some(e),
        None => unsafe_target(dir, probe.state@),
    }
}

/// Holds what was found at the path of an output directory to both checks.
pub fn check_target(dir: &str, probe: &TargetProbe) -> (r: Result<(), String>)
    ensures
        loader::failure_of(r) == refused_target(dir@, *probe),
{
    match check_target_not_symlink(dir, probe.is_symlink) {
        Err(e) => Err(e),
        Ok(_) => check_target_dir_safe(dir, &probe.state),
    }
}

/// The directory that a path lies in; the current one where it names none.
pub open spec fn containing_dir(p: Seq<char>) -> Seq<char> {
    match path::parent_of(p) {
        Some(dir) if dir.len() > 0 => dir,
        _ => "."@,
    }
}

/// The directory that a path lies in.
pub fn containing(p: &str) -> (out: String)
    ensures
        out@ == containing_dir(p@),
{
    if let Some(dir) = parent(p) {
        if !dir.as_str().is_empty() {
            return dir;
        }
    }
    ".".to_owned()
}

/// Sibling archive path for a self-contained output directory.
pub open spec fn archive_place(dir: Seq<char>) -> Seq<char> {
    let name = match path::file_name_of(dir) {
        Some(name) => name,
        None => dir,
    } + ".tar.gz"@;
    match path::parent_of(dir) {
        Some(parent) if parent.len() > 0 => path::path_join(parent, name),
        _ => name,
    }
}

/// Sibling archive path for a self-contained output directory: `<dir>` with
/// `.tar.gz` appended to its final component, e.g. `build/context` ->
/// `build/context.tar.gz`. The name is that of the path's last component
/// rather than the raw text, so a trailing separator (e.g.
/// `--self-contained out/`, what shell completion produces for an existing
/// directory) still yields the sibling `out.tar.gz` rather than a hidden
/// `.tar.gz` file inside `out/`.
pub fn archive_path_for(dir: &str) -> (out: String)
    ensures
        out@ == archive_place(dir@),
{
    let mut name = match file_name(dir) {
        Some(name) => name,
        None => dir.to_owned(),
    };
    name.append(".tar.gz");
    if let Some(parent) = parent(dir) {
        if !parent.as_str().is_empty() {
            return join_path(parent.as_str(), name.as_str());
        }
    }
    name
}

/// How a directory is packaged.
#[derive(Debug, Clone)]
pub struct ArchivePlan {
    /// The directory that is packaged.
    pub dir: String,
    /// The single top-level directory of the archive.
    pub name: String,
    /// Where the archive ends up.
    pub archive_path: String,
    /// Where it is built first. This must be the archive's own directory:
    /// moving it into place is atomic only within a filesystem, and the
    /// guarantee that no partial archive is left rests on that.
    pub staging_dir: String,
}

/// The plan packages `dir` as a sibling archive.
pub open spec fn packages_dir(plan: ArchivePlan, dir: Seq<char>) -> bool {
    &&& plan.dir@ == dir
    &&& path::file_name_of(dir) == Some(plan.name@)
    &&& plan.archive_path@ == archive_place(dir)
    &&& plan.staging_dir@ == containing_dir(archive_place(dir))
}

/// How `dir` is packaged: with a single top-level directory named after its
/// last component, so extraction is predictable regardless of where the
/// archive is unpacked.
pub fn plan_archive(dir: &str) -> (r: Result<ArchivePlan, String>)
    ensures
        match r {
            Ok(plan) => packages_dir(plan, dir@),
            Err(e) => path::file_name_of(dir@) is None && e@ == dir@
                + " has no directory name"@,
        },
{
    let name = match file_name(dir) {
        Some(name) => name,
        None => {
            let mut out = dir.to_owned();
            out.append(" has no directory name");
            return Err(out);
        },
    };
    let archive_path = archive_path_for(dir);
    let staging_dir = containing(archive_path.as_str());
    Ok(ArchivePlan { dir: dir.to_owned(), name, archive_path, staging_dir })
}

/// Package `dir` as a sibling `.tar.gz` and return the archive's path. `pack`
/// builds the archive that a plan describes.
pub fn create_archive(
    dir: &str,
    pack: impl FnOnce(&ArchivePlan) -> Result<(), String>,
) -> (r: Result<String, String>)
    requires
        forall|plan: &ArchivePlan|
            packages_dir(*plan, dir@) ==> #[trigger] call_requires(pack, (plan,)),
    ensures
        match path::file_name_of(dir@) {
            None => text::result_text(r) == Err::<Seq<char>, Seq<char>>(
                dir@ + " has no directory name"@,
            ),
            Some(_) => exists|plan: &ArchivePlan, packed: Result<(), String>|
                {
                    &&& packages_dir(*plan, dir@)
                    &&& #[trigger] call_ensures(pack, (plan,), packed)
                    &&& text::result_text(r) == match packed {
                        Ok(_) => Ok(archive_place(dir@)),
                        Err(e) => Err(e@),
                    }
                },
        },
{
    match plan_archive(dir) {
        Err(e) => Err(e),
        Ok(plan) => match pack(&plan) {
            Ok(_) => Ok(plan.archive_path),
            Err(e) => Err(e),
        },
    }
}

/// A separator at the end of the directory changes nothing about where its
/// archive ends up.
pub proof fn law_archive_path_ignores_a_trailing_separator(dir: Seq<char>)
    requires
        path::file_name_of(dir) is Some,
    ensures
        archive_place(dir + seq!['/']) == archive_place(dir),
{
    let p = dir + seq!['/'];
    path::lemma_trailing_separator(dir);
    path::lemma_spans_from(dir, 0);
    let at = path::spans(dir);
    assert(path::names(dir).len() == at.len());
    assert(dir.len() > 0) by {
        assert(at[0].0 < at[0].1);
    }
    assert(p[0] == dir[0]);
    if at.len() > 1 {
        assert(at[at.len() - 2].1 < at[at.len() - 1].0);
        assert(p.take(at[at.len() - 2].1) =~= dir.take(at[at.len() - 2].1));
    }
    assert(path::parent_of(p) == path::parent_of(dir));
}

/// Where a fragment's mount material would land, as the refusal shows it.
pub open spec fn landing_line(
    dir: Seq<char>,
    fragment_name: Seq<char>,
    point: Seq<char>,
) -> Seq<char> {
    "  "@ + path::path_join(dir, mount::context_source_text(fragment_name, point))
        + " (fragment '"@ + fragment_name + "')"@
}

/// Where one fragment's mount material would land.
pub open spec fn fragment_landing(
    dir: Seq<char>,
    fragment_name: Seq<char>,
    points: Seq<Seq<char>>,
) -> Seq<Seq<char>> {
    points.map_values(|p: Seq<char>| landing_line(dir, fragment_name, p))
}

/// Where the mount material of a list of fragments would land.
pub open spec fn landing(dir: Seq<char>, fragments: Seq<LoadedView>) -> Seq<Seq<char>>
    decreases fragments.len(),
{
    if fragments.len() == 0 {
        Seq::empty()
    } else {
        let last = fragments.last();
        landing(dir, fragments.drop_last()) + fragment_landing(
            dir,
            last.fragment.name,
            last.mount_points,
        )
    }
}

/// What is said of mount material that would land in the context unasked.
pub open spec fn unasked_text(dir: Seq<char>, landing: Seq<Seq<char>>) -> Seq<char> {
    "--self-contained would write build-mount material into the build context. These paths would land on disk:\n"@
        + text::joined(landing, "\n"@)
        + "\nand the same bytes would be copied into the sibling archive "@ + archive_place(dir)
        + ". Self-contained output carries no registry references, so mount material cannot arrive by reference and has to be materialized. Treat that as a custody change: the copy is durable, and git does not record file modes, so committing the context would publish owner-only material world-readable. If that is what you intend, re-run with --materialize-mounts, which writes the mount subtrees owner-only and adds a .gitignore covering fragments/*/mount/. Otherwise generate without --self-contained, where the material is mounted from a digest-pinned reference instead of being materialized into the context."@
}

/// Why self-contained output is refused over mount material, if it is.
pub open spec fn unasked_material(
    dir: Seq<char>,
    fragments: Seq<LoadedView>,
    materialize_mounts: bool,
) -> Option<Seq<char>> {
    let lines = landing(dir, fragments);
    if materialize_mounts || lines.len() == 0 {
        None
    } else {
        Some(unasked_text(dir, lines))
    }
}

/// Where the mount material of a list of fragments would land.
fn landing_lines(dir: &str, fragments: &[LoadedFragment]) -> (out: Vec<String>)
    ensures
        text::texts(out@) == landing(dir@, loader::loaded_views(fragments@)),
{
    let ghost views = loader::loaded_views(fragments@);
    let mut out: Vec<String> = Vec::new();
    assert(text::texts(out@) =~= landing(dir@, views.take(0)));
    for i in 0..fragments.len()
        invariant
            views == loader::loaded_views(fragments@),
            text::texts(out@) == landing(dir@, views.take(i as int)),
    {
        let f = &fragments[i];
        let ghost before = text::texts(out@);
        let ghost name = f.fragment.name@;
        let ghost lines = fragment_landing(dir@, name, f@.mount_points);
        assert(views[i as int] == f@);
        assert(views.take(i + 1).drop_last() =~= views.take(i as int));
        assert(views.take(i + 1).last() == f@);
        assert(before + lines.take(0) =~= before);
        for j in 0..f.mount_points.len()
            invariant
                name == f.fragment.name@,
                lines == fragment_landing(dir@, name, f@.mount_points),
                text::texts(out@) == before + lines.take(j as int),
        {
            let ghost so_far = text::texts(out@);
            let mut line = "  ".to_owned();
            let source = f.mount_points[j].context_source(&f.fragment.name);
            line.append(join_path(dir, source.as_str()).as_str());
            line.append(" (fragment '");
            line.append(f.fragment.name.as_str());
            line.append("')");
            let ghost added = line@;
            assert(f@.mount_points[j as int] == f.mount_points@[j as int]@);
            assert(lines[j as int] == added);
            out.push(line);
            assert(text::texts(out@) =~= so_far.push(added));
            assert(text::texts(out@) =~= before + lines.take(j + 1));
        }
        assert(lines.take(lines.len() as int) =~= lines);
    }
    assert(views.take(views.len() as int) =~= views);
    out
}

/// Refuse to write build-mount material into a self-contained context
/// unless the user asked for it by name.
///
/// Self-contained output carries no registry references by design, so mount
/// material cannot arrive as an inline `from=` and has to be materialized
/// into the context and its sibling archive. That is a custody change rather
/// than a packaging detail, which is why it is gated rather than noticed.
pub fn check_mount_materialization(
    dir: &str,
    fragments: &[LoadedFragment],
    materialize_mounts: bool,
) -> (r: Result<(), String>)
    ensures
        loader::failure_of(r) == unasked_material(
            dir@,
            loader::loaded_views(fragments@),
            materialize_mounts,
        ),
{
    if materialize_mounts {
        return Ok(());
    }
    let lines = landing_lines(dir, fragments);
    assert(text::texts(lines@).len() == lines@.len());
    if lines.len() == 0 {
        return Ok(());
    }
    let mut out = "--self-contained would write build-mount material into the build context. These paths would land on disk:\n".to_owned();
    out.append(join(&lines, "\n").as_str());
    out.append("\nand the same bytes would be copied into the sibling archive ");
    out.append(archive_path_for(dir).as_str());
    out.append(". Self-contained output carries no registry references, so mount material cannot arrive by reference and has to be materialized. Treat that as a custody change: the copy is durable, and git does not record file modes, so committing the context would publish owner-only material world-readable. If that is what you intend, re-run with --materialize-mounts, which writes the mount subtrees owner-only and adds a .gitignore covering fragments/*/mount/. Otherwise generate without --self-contained, where the material is mounted from a digest-pinned reference instead of being materialized into the context.");
    Err(out)
}

/// Some fragment carries mount material.
pub open spec fn carries_mounts(fragments: Seq<LoadedView>) -> bool {
    exists|i: int| 0 <= i < fragments.len() && (#[trigger] fragments[i]).mount_points.len() > 0
}

/// There is a place for mount material to land exactly when some fragment
/// carries it.
proof fn lemma_landing(dir: Seq<char>, fragments: Seq<LoadedView>)
    ensures
        landing(dir, fragments).len() > 0 <==> carries_mounts(fragments),
        forall|i: int, j: int|
            0 <= i < fragments.len() && 0 <= j < fragments[i].mount_points.len()
                ==> landing(dir, fragments).contains(
                landing_line(
                    dir,
                    fragments[i].fragment.name,
                    #[trigger] fragments[i].mount_points[j],
                ),
            ),
    decreases fragments.len(),
{
    if fragments.len() > 0 {
        let front = fragments.drop_last();
        let last = fragments.last();
        let front_lines = landing(dir, front);
        let last_lines = fragment_landing(dir, last.fragment.name, last.mount_points);
        let all = landing(dir, fragments);
        lemma_landing(dir, front);
        if carries_mounts(front) {
            let i = choose|i: int|
                0 <= i < front.len() && (#[trigger] front[i]).mount_points.len() > 0;
            assert(fragments[i].mount_points.len() > 0);
        }
        if last.mount_points.len() > 0 {
            assert(fragments[fragments.len() - 1].mount_points.len() > 0);
        }
        if carries_mounts(fragments) {
            let i = choose|i: int|
                0 <= i < fragments.len() && (#[trigger] fragments[i]).mount_points.len() > 0;
            if i < front.len() {
                assert(front[i].mount_points.len() > 0);
            }
        }
        assert(last_lines.len() == last.mount_points.len());
        assert forall|i: int, j: int|
            0 <= i < fragments.len() && 0 <= j < fragments[i].mount_points.len() implies all.contains(
            landing_line(
                dir,
                fragments[i].fragment.name,
                #[trigger] fragments[i].mount_points[j],
            ),
        ) by {
            let line = landing_line(dir, fragments[i].fragment.name, fragments[i].mount_points[j]);
            if i < front.len() {
                assert(front[i].mount_points[j] == fragments[i].mount_points[j]);
                assert(front_lines.contains(line));
                let k = choose|k: int| 0 <= k < front_lines.len() && front_lines[k] == line;
                assert(all[k] == line);
            } else {
                assert(last_lines[j] == line);
                assert(all[front_lines.len() + j] == line);
            }
        }
    }
}

/// Writing is refused exactly for mount material that was not asked for: a
/// composition without any is never refused, and the refusal names every
/// offending fragment and path.
pub proof fn law_refusal_names_all_unasked_material(
    dir: Seq<char>,
    fragments: Seq<LoadedView>,
    materialize_mounts: bool,
)
    ensures
        unasked_material(dir, fragments, materialize_mounts) is Some <==> !materialize_mounts
            && carries_mounts(fragments),
        forall|i: int, j: int|
            0 <= i < fragments.len() && 0 <= j < fragments[i].mount_points.len()
                ==> landing(dir, fragments).contains(
                landing_line(
                    dir,
                    fragments[i].fragment.name,
                    #[trigger] fragments[i].mount_points[j],
                ),
            ),
{
    lemma_landing(dir, fragments);
}

/// A target may be written to exactly when nothing stands there, or a
/// directory that is no symlink and is empty or holds the sentinel and nothing
/// but what the tool writes itself.
pub proof fn law_target_is_safe_exactly_when(dir: Seq<char>, probe: TargetProbe)
    ensures
        refused_target(dir, probe) is None <==> !probe.is_symlink && match probe.state {
            TargetState::Absent => true,
            TargetState::NotDirectory => false,
            TargetState::Unreadable(_) => false,
            TargetState::Directory(entries) => entries@.len() == 0 || {
                &&& exists|i: int|
                    0 <= i < entries@.len() && (#[trigger] entries@[i])@
                        == ".osfragment-assemble"@
                &&& forall|i: int|
                    0 <= i < entries@.len() ==> {
                        ||| (#[trigger] entries@[i])@ == "Containerfile"@
                        ||| entries@[i]@ == "manifest.yaml"@
                        ||| entries@[i]@ == "fragments"@
                        ||| entries@[i]@ == ".osfragment-assemble"@
                        ||| entries@[i]@ == ".gitignore"@
                    }
            },
        },
        !probe.is_symlink ==> refused_target(dir, probe) == unsafe_target(dir, probe.state@),
        probe.is_symlink ==> refused_target(dir, probe) == symlinked_target(dir, true),
        symlinked_target(dir, false) is None,
        symlinked_target(dir, true) is Some,
{
    if let TargetState::Directory(entries) = probe.state {
        let names = text::texts(entries@);
        assert(names.len() == entries@.len());
        assert forall|i: int| 0 <= i < names.len() implies #[trigger] names[i] == entries@[i]@ by {}
        if names.contains(SENTINEL_FILENAME@) {
            let i = choose|i: int| 0 <= i < names.len() && names[i] == SENTINEL_FILENAME@;
            assert(entries@[i]@ == ".osfragment-assemble"@);
        }
        if exists|i: int|
            0 <= i < entries@.len() && (#[trigger] entries@[i])@ == ".osfragment-assemble"@ {
            let i = choose|i: int|
                0 <= i < entries@.len() && (#[trigger] entries@[i])@ == ".osfragment-assemble"@;
            assert(names[i] == SENTINEL_FILENAME@);
        }
        if regenerable(names) && names.len() > 0 {
            assert forall|i: int| 0 <= i < entries@.len() implies {
                ||| (#[trigger] entries@[i])@ == "Containerfile"@
                ||| entries@[i]@ == "manifest.yaml"@
                ||| entries@[i]@ == "fragments"@
                ||| entries@[i]@ == ".osfragment-assemble"@
                ||| entries@[i]@ == ".gitignore"@
            } by {
                assert(tool_generated(names[i]));
            }
        }
        if forall|i: int|
            0 <= i < entries@.len() ==> {
                ||| (#[trigger] entries@[i])@ == "Containerfile"@
                ||| entries@[i]@ == "manifest.yaml"@
                ||| entries@[i]@ == "fragments"@
                ||| entries@[i]@ == ".osfragment-assemble"@
                ||| entries@[i]@ == ".gitignore"@
            } {
            assert forall|i: int| 0 <= i < names.len() implies tool_generated(
                #[trigger] names[i],
            ) by {
                assert(names[i] == entries@[i]@);
            }
        }
    }
}

/// A directory is packaged next to itself, under its own name with `.tar.gz`
/// behind it, holding a single directory of that name, and is built where it
/// ends up.
pub proof fn law_archive_lies_next_to_its_directory(
    plan: ArchivePlan,
    parent: Seq<char>,
    name: Seq<char>,
)
    requires
        path::ordinary_path(parent),
        path::plain_name(name),
    ensures
        packages_dir(plan, parent + seq!['/'] + name) ==> {
            &&& plan.dir@ == parent + seq!['/'] + name
            &&& plan.name@ == name
            &&& plan.archive_path@ == parent + seq!['/'] + name + ".tar.gz"@
            &&& plan.staging_dir@ == parent
        },
        packages_dir(plan, seq!['/'] + parent + seq!['/'] + name) ==> {
            &&& plan.name@ == name
            &&& plan.archive_path@ == seq!['/'] + parent + seq!['/'] + name + ".tar.gz"@
            &&& plan.staging_dir@ == seq!['/'] + parent
        },
        packages_dir(plan, name) ==> {
            &&& plan.dir@ == name
            &&& plan.name@ == name
            &&& plan.archive_path@ == name + ".tar.gz"@
            &&& plan.staging_dir@ == "."@
        },
        containing_dir(parent + seq!['/'] + name) == parent,
        containing_dir(name) == "."@,
{
    path::law_path_is_directory_and_name(parent, name);
    let root = seq!['/'] + parent;
    path::law_path_is_directory_and_name(root, name);
    path::lemma_ordinary_path(parent);
    assert(parent.len() > 0) by {
        if parent.len() == 0 {
            assert(path::names(parent) =~= Seq::empty());
        }
    }
    let file = name + ".tar.gz"@;
    reveal_strlit(".tar.gz");
    assert(!file.contains('/')) by {
        if file.contains('/') {
            let i = choose|i: int| 0 <= i < file.len() && file[i] == '/';
            if i < name.len() {
                assert(name.contains(name[i]));
            } else {
                assert(file[i] == ".tar.gz"@[i - name.len()]);
            }
        }
    }
    assert(file.len() > 2);
    path::law_path_is_directory_and_name(parent, file);
    path::law_path_is_directory_and_name(root, file);
    assert(file[0] == name[0]);
    assert(name[0] != '/') by {
        assert(name.contains(name[0]));
    }
    assert(parent.last() != '/') by {
        if parent.last() == '/' {
            let d = parent.drop_last();
            let q = Seq::<char>::empty();
            assert(parent =~= d + seq!['/'] + q);
            path::law_ordinary_paths_are_names_between_separators(d, q);
        }
    }
    assert(root.last() == parent.last());
    assert(path::path_join(parent, file) =~= parent + seq!['/'] + name + ".tar.gz"@);
    assert(path::path_join(parent, file) =~= parent + seq!['/'] + file);
    assert(path::path_join(root, file) =~= root + seq!['/'] + name + ".tar.gz"@);
    assert(path::path_join(root, file) =~= root + seq!['/'] + file);
}

/// Every place that mount material would land at has its line, fragment by
/// fragment and mount point by mount point, and the refusal shows all of
/// them.
pub proof fn law_refusal_lists_every_landing_place(
    dir: Seq<char>,
    fragments: Seq<LoadedFragment>,
    r: Result<(), String>,
)
    requires
        loader::failure_of(r) == unasked_material(dir, loader::loaded_views(fragments), false),
    ensures
        r is Ok <==> forall|i: int|
            0 <= i < fragments.len() ==> (#[trigger] fragments[i]).mount_points@.len() == 0,
        r matches Err(e) ==> {
            let lines = fragments.map_values(
                |f: LoadedFragment|
                    f.mount_points@.map_values(
                        |p: mount::MountPoint|
                            "  "@ + path::path_join(
                                dir,
                                "fragments/"@ + f.fragment.name@ + "/mount/"@ + p@,
                            ) + " (fragment '"@ + f.fragment.name@ + "')"@,
                    ),
            ).flatten();
            e@
                == "--self-contained would write build-mount material into the build context. These paths would land on disk:\n"@
                + text::joined(lines, "\n"@)
                + "\nand the same bytes would be copied into the sibling archive "@
                + archive_place(dir)
                + ". Self-contained output carries no registry references, so mount material cannot arrive by reference and has to be materialized. Treat that as a custody change: the copy is durable, and git does not record file modes, so committing the context would publish owner-only material world-readable. If that is what you intend, re-run with --materialize-mounts, which writes the mount subtrees owner-only and adds a .gitignore covering fragments/*/mount/. Otherwise generate without --self-contained, where the material is mounted from a digest-pinned reference instead of being materialized into the context."@
        },
        unasked_material(dir, loader::loaded_views(fragments), true) is None,
{
    let views = loader::loaded_views(fragments);
    lemma_landing(dir, views);
    lemma_landing_flat(dir, fragments);
    if carries_mounts(views) {
        let i = choose|i: int|
            0 <= i < views.len() && (#[trigger] views[i]).mount_points.len() > 0;
        assert(fragments[i].mount_points@.len() == views[i].mount_points.len());
    } else {
        assert forall|i: int| 0 <= i < fragments.len() implies (
        #[trigger] fragments[i]).mount_points@.len() == 0 by {
            assert(views[i].mount_points.len() == fragments[i].mount_points@.len());
        }
    }
}

proof fn lemma_landing_flat(dir: Seq<char>, fragments: Seq<LoadedFragment>)
    ensures
        landing(dir, loader::loaded_views(fragments)) == fragments.map_values(
            |f: LoadedFragment|
                f.mount_points@.map_values(
                    |p: mount::MountPoint|
                        "  "@ + path::path_join(
                            dir,
                            "fragments/"@ + f.fragment.name@ + "/mount/"@ + p@,
                        ) + " (fragment '"@ + f.fragment.name@ + "')"@,
                ),
        ).flatten(),
    decreases fragments.len(),
{
    let lines = |f: LoadedFragment|
        f.mount_points@.map_values(
            |p: mount::MountPoint|
                "  "@ + path::path_join(
                    dir,
                    "fragments/"@ + f.fragment.name@ + "/mount/"@ + p@,
                ) + " (fragment '"@ + f.fragment.name@ + "')"@,
        );
    let views = loader::loaded_views(fragments);
    if fragments.len() == 0 {
        assert(fragments.map_values(lines) =~= Seq::empty());
        assert(landing(dir, views) =~= fragments.map_values(lines).flatten());
    } else {
        let front = fragments.drop_last();
        let last = fragments.last();
        lemma_landing_flat(dir, front);
        assert(views.drop_last() =~= loader::loaded_views(front));
        assert(views.last() == last@);
        let added = fragment_landing(dir, last@.fragment.name, last@.mount_points);
        assert(added =~= lines(last));
        assert(fragments.map_values(lines) =~= front.map_values(lines).push(lines(last)));
        front.map_values(lines).lemma_flatten_push(lines(last));
        assert(landing(dir, views) =~= fragments.map_values(lines).flatten());
    }
}

/// What the tool writes is normally readable, and mount material belongs to
/// its owner alone: nobody else may read, write or enter it.
pub proof fn law_mount_material_is_owner_only()
    ensures
        MOUNT_DIR_MODE == 0o700,
        MOUNT_FILE_MODE == 0o600,
        OUTPUT_DIR_MODE == 0o755,
        MOUNT_DIR_MODE & 0o077 == 0,
        MOUNT_FILE_MODE & 0o177 == 0,
{
    assert(0o700u32 & 0o077u32 == 0) by (bit_vector);
    assert(0o600u32 & 0o177u32 == 0) by (bit_vector);
}

/// A refused target is named, with what is wrong with it; one that cannot be
/// read is refused with the reason.
pub proof fn law_refused_target_is_named(dir: Seq<char>, entries: Seq<Seq<char>>, e: Seq<char>)
    ensures
        unsafe_target(dir, TargetView::NotDirectory) == Some(
            "--self-contained target "@ + dir
                + " exists and is not a directory; point --self-contained at a directory path instead"@,
        ),
        unsafe_target(dir, TargetView::Directory(entries)) is Some ==> unsafe_target(
            dir,
            TargetView::Directory(entries),
        ) == Some(
            "--self-contained target "@ + dir
                + " already exists and was not generated by this tool (expected the "@
                + ".osfragment-assemble"@
                + " sentinel plus only tool-generated entries, and nothing else); point --self-contained at a new or empty directory"@,
        ),
        unsafe_target(dir, TargetView::Unreadable(e)) == Some(e),
        symlinked_target(dir, true) == Some(
            "--self-contained target "@ + dir
                + " is a symlink; point it at a real directory path (this mode replaces the target directory wholesale and will not write through a symlink)"@,
        ),
{
}

} // verus!
