//! Build mounts: the `mount/` directory a fragment may carry, and the
//! derivation from its file paths to the bind mounts that are attached to the
//! package step and to every hook step.
//!
//! A bind mount shadows its target directory rather than merging into it, so
//! the derived unit is a directory and never a file: every directory under
//! `mount/` that directly contains a regular file, minus any that is nested
//! inside another such directory.

use vstd::prelude::*;

use crate::fragment::FragmentName;
use crate::path;
use crate::path::{is_ordinary_path, is_under, parent, path_less, same_path, undotted_names};
use crate::text;
use crate::text::{chars_of, join, same_text, starts_with, trim_leading};

verus! {

/// OCI annotation key carrying a fragment's mount targets as a JSON array of
/// absolute paths. Hand-authored by the fragment author on their own
/// `podman build`, like every other annotation this tool reads: there is no
/// publish step to write it.
pub const MOUNTS_ANNOTATION_KEY: &'static str = "com.github.marrusl.osfragment.mounts";

/// The sentence every surface that renders mount targets closes with, held
/// in one place so `inspect` and `list` cannot drift apart.
pub const MOUNT_SECTION_NOTE: &'static str =
    "mounted during package and hook steps, never committed by the builder";

/// A path that the package phase writes to before the batched dnf RUN. A
/// mount target that equals or contains one of these hides it for exactly the
/// RUN that needs it.
pub struct GeneratorWrittenPath {
    /// Absolute path in the built image.
    pub path: &'static str,
    /// The generator phase that owns the path, named in the collision error.
    pub phase: &'static str,
}

/// The two directories that repository definitions and their keys are copied
/// into ahead of the package step.
pub fn generator_written_paths() -> (out: Vec<GeneratorWrittenPath>)
    ensures
        out@.len() == 2,
        out@[0].path@ == "/etc/yum.repos.d"@,
        out@[0].phase@ == "repo files"@,
        out@[1].path@ == "/etc/pki/rpm-gpg"@,
        out@[1].phase@ == "repo files"@,
{
    vec![
        GeneratorWrittenPath { path: "/etc/yum.repos.d", phase: "repo files" },
        GeneratorWrittenPath { path: "/etc/pki/rpm-gpg", phase: "repo files" },
    ]
}

/// One derived bind mount: a directory under `mount/`, stored relative to it,
/// that becomes exactly one `--mount` flag.
///
/// The inner text is private, so the only ways to obtain a `MountPoint` are
/// [`derive_mount_points`], from a fragment's own files, and
/// [`MountPoint::from_target`], which revalidates an annotation's claim.
/// Holding one is proof that it names a relative path of ordinary components,
/// which is what lets the render methods join it onto a prefix without
/// rechecking at each call.
#[derive(Debug)]
pub struct MountPoint {
    path: String,
}

impl Clone for MountPoint {
    fn clone(&self) -> (copy: Self)
        ensures
            copy@ == self@,
    {
        proof {
            use_type_invariant(self);
        }
        MountPoint { path: self.path.clone() }
    }
}

impl View for MountPoint {
    type V = Seq<char>;

    closed spec fn view(&self) -> Seq<char> {
        self.path@
    }
}

impl PartialEq for MountPoint {
    fn eq(&self, other: &Self) -> (r: bool) {
        same_path(self.path.as_str(), other.path.as_str())
    }
}

impl vstd::std_specs::cmp::PartialEqSpecImpl for MountPoint {
    open spec fn obeys_eq_spec() -> bool {
        true
    }

    open spec fn eq_spec(&self, other: &Self) -> bool {
        path::components(self@) == path::components(other@)
    }
}

impl Eq for MountPoint {

}

/// An annotated mount target that cannot be used.
#[derive(Debug, Clone)]
pub struct MountTargetError {
    pub target: String,
}

/// What is said of a refused target, given the target with its unprintable
/// characters escaped.
pub open spec fn unusable_target_text(escaped: Seq<char>) -> Seq<char> {
    "mount target '"@ + escaped + "' is not usable: a target must be an absolute path of ordinary components, for example /etc/pki/entitlement"@
}

/// What is said of a refused target, given the target with its unprintable
/// characters escaped.
pub fn unusable_target_message(escaped: &str) -> (out: String)
    ensures
        out@ == unusable_target_text(escaped@),
{
    let mut out = "mount target '".to_owned();
    out.append(escaped);
    out.append("' is not usable: a target must be an absolute path of ordinary components, for example /etc/pki/entitlement");
    out
}

impl MountTargetError {
    pub fn message(&self) -> (out: String)
        ensures
            out@ == unusable_target_text(text::escaped(self.target@)),
    {
        let escaped = text::escape_debug(self.target.as_str());
        unusable_target_message(escaped.as_str())
    }
}

/// An absolute path of ordinary components, written without a superfluous
/// separator.
pub open spec fn usable_target(target: Seq<char>) -> bool {
    path::is_absolute(target) && path::ordinary_path(target.skip(1))
}

/// The absolute path in the built image that a mount point stands for.
pub open spec fn target_text(point: Seq<char>) -> Seq<char> {
    "/"@ + point
}

/// The `--mount=` flag of a build RUN.
pub open spec fn flag_text(
    point: Seq<char>,
    from: Option<Seq<char>>,
    source: Seq<char>,
) -> Seq<char> {
    match from {
        Some(image_ref) => "--mount=type=bind,from="@ + image_ref + ",source="@ + source
            + ",target="@ + target_text(point) + ",ro,z"@,
        None => "--mount=type=bind,source="@ + source + ",target="@ + target_text(point)
            + ",ro,z"@,
    }
}

/// Either path equals or is an ancestor of the other.
pub open spec fn paths_overlap(a: Seq<char>, b: Seq<char>) -> bool {
    path::lies_under(a, b) || path::lies_under(b, a)
}

/// A mount at `point` hides the given path: it lies at the mount's target or
/// below it.
pub open spec fn hides(point: Seq<char>, absolute_path: Seq<char>) -> bool {
    path::lies_under(text::without_leading(absolute_path, '/'), point)
}

impl MountPoint {
    #[verifier::type_invariant]
    spec fn well_formed(self) -> bool {
        path::ordinary_path(self.path@)
    }

    /// The mount point as a relative path of ordinary components:
    /// `etc/pki/entitlement`.
    pub fn as_str(&self) -> (r: &str)
        ensures
            r@ == self@,
            path::ordinary_path(self@),
    {
        proof {
            use_type_invariant(self);
        }
        self.path.as_str()
    }

    /// Parse an absolute target path, the form an OCI annotation carries.
    ///
    /// Rejects rather than sanitizes: an annotation is external input, and
    /// every render method below assumes exactly what this checks. An
    /// internal `.` is refused too, so that `/etc/./pki` is not taken for
    /// `/etc/pki`.
    pub fn from_target(target: &str) -> (r: Result<Self, MountTargetError>)
        ensures
            r is Ok <==> usable_target(target@),
            r matches Ok(point) ==> point@ == target@.skip(1) && path::ordinary_path(point@),
            r matches Err(e) ==> e.target@ == target@,
    {
        let chars = chars_of(target);
        if chars.len() > 0 && chars[0] == '/' {
            let rest = target.substring_char(1, chars.len());
            assert(rest@ =~= target@.skip(1));
            if is_ordinary_path(rest) {
                return Ok(MountPoint { path: rest.to_owned() });
            }
        }
        Err(MountTargetError { target: target.to_owned() })
    }

    /// Absolute path in the built image: `/etc/pki/entitlement`.
    pub fn target(&self) -> (out: String)
        ensures
            out@ == target_text(self@),
            usable_target(out@),
    {
        proof {
            use_type_invariant(self);
            reveal_strlit("/");
            assert(target_text(self@).skip(1) =~= self@);
        }
        let mut out = "/".to_owned();
        out.append(self.path.as_str());
        out
    }

    /// Source path inside the fragment image, for an inline `from=` mount.
    pub fn layer_source(&self) -> (out: String)
        ensures
            out@ == "/fragment/mount/"@ + self@,
    {
        let mut out = "/fragment/mount/".to_owned();
        out.append(self.path.as_str());
        out
    }

    /// Source path inside a self-contained build context, for a mount that
    /// carries no `from=` because the material was materialized on disk.
    pub fn context_source(&self, fragment: &FragmentName) -> (out: String)
        ensures
            out@ == context_source_text(fragment@, self@),
    {
        let mut out = "fragments/".to_owned();
        out.append(fragment.as_str());
        out.append("/mount/");
        out.append(self.path.as_str());
        out
    }

    /// Render this mount point as a `--mount=` flag for a build RUN: the
    /// package step and every hook step both attach it. The option skeleton
    /// and key order (`type=bind`, `from=` optional, `source=`, `target=`,
    /// `ro`, `z`) are defined in exactly this one place, so the two emission
    /// forms cannot drift apart on it.
    ///
    /// `from` is the inline registry reference for the default output
    /// form, or `None` for the self-contained form, which carries no
    /// `from=` and reads from the materialized build context instead.
    /// `source` is the already-derived source path: the caller passes
    /// [`Self::layer_source`] or [`Self::context_source`] depending on
    /// which form it is emitting.
    pub fn mount_flag(&self, from: Option<&str>, source: &str) -> (out: String)
        ensures
            out@ == flag_text(
                self@,
                match from {
                    Some(image_ref) => Some(image_ref@),
                    None => None,
                },
                source@,
            ),
    {
        let target = self.target();
        match from {
            Some(image_ref) => {
                let mut out = "--mount=type=bind,from=".to_owned();
                out.append(image_ref);
                out.append(",source=");
                out.append(source);
                out.append(",target=");
                out.append(target.as_str());
                out.append(",ro,z");
                out
            },
            None => {
                let mut out = "--mount=type=bind,source=".to_owned();
                out.append(source);
                out.append(",target=");
                out.append(target.as_str());
                out.append(",ro,z");
                out
            },
        }
    }

    /// Whether two mount targets collide: either equals or is an ancestor of
    /// the other. Comparison is component-wise, so `/etc/pkix` does not
    /// collide with `/etc/pki`.
    pub fn overlaps(&self, other: &MountPoint) -> (r: bool)
        ensures
            r == paths_overlap(self@, other@),
    {
        is_under(self.path.as_str(), other.path.as_str()) || is_under(
            other.path.as_str(),
            self.path.as_str(),
        )
    }

    /// Whether this mount hides `absolute_path` for the duration of the RUN:
    /// true when the target equals or contains it. The reverse nesting is
    /// not a collision, because files are written directly at the paths the
    /// generator owns and a mount below one of them hides nothing it wrote.
    pub fn shadows(&self, absolute_path: &str) -> (r: bool)
        ensures
            r == hides(self@, absolute_path@),
    {
        let rel = trim_leading(absolute_path, '/');
        is_under(rel.as_str(), self.path.as_str())
    }
}

/// Where a fragment's mount material lies in a self-contained build context.
pub open spec fn context_source_text(fragment: Seq<char>, point: Seq<char>) -> Seq<char> {
    "fragments/"@ + fragment + "/mount/"@ + point
}

/// The directory that directly contains `file`, as `file` writes it.
pub open spec fn written_dir(file: Seq<char>) -> Seq<char> {
    match path::parent_of(file) {
        Some(dir) => dir,
        None => Seq::empty(),
    }
}

/// The directory that directly contains `file`, written as its names with
/// single separators between them; empty for a file at the top.
#[verifier::opaque]
pub open spec fn file_dir(file: Seq<char>) -> Seq<char> {
    text::joined(path::names_without_dot(written_dir(file)), seq!['/'])
}

/// `file` may lie outside the directory that it is given relative to: its
/// directory is absolute or names `..`.
pub open spec fn strays(file: Seq<char>) -> bool {
    path::is_absolute(file) || path::names_without_dot(written_dir(file)).contains(seq!['.', '.'])
}

/// No mount point can be derived from `file`: it strays, or it lies at the
/// top, where its directory would be the root.
pub open spec fn misplaced(file: Seq<char>) -> bool {
    strays(file) || path::names_without_dot(written_dir(file)).len() == 0
}

/// The first misplaced file from place `i` on.
pub open spec fn misplaced_from(files: Seq<Seq<char>>, i: int) -> Option<Seq<char>>
    decreases files.len() - i,
{
    if i >= files.len() {
        None
    } else if misplaced(files[i]) {
        Some(files[i])
    } else {
        misplaced_from(files, i + 1)
    }
}

/// The first misplaced file.
pub open spec fn misplaced_file(files: Seq<Seq<char>>) -> Option<Seq<char>> {
    misplaced_from(files, 0)
}

/// There is a misplaced file exactly when some file is misplaced, and it is
/// the first one.
pub proof fn lemma_misplaced_file(files: Seq<Seq<char>>)
    ensures
        misplaced_file(files) is None <==> forall|i: int|
            0 <= i < files.len() ==> !misplaced(#[trigger] files[i]),
        misplaced_file(files) matches Some(file) ==> exists|i: int|
            {
                &&& 0 <= i < files.len()
                &&& #[trigger] files[i] == file
                &&& misplaced(file)
                &&& forall|j: int| 0 <= j < i ==> !misplaced(#[trigger] files[j])
            },
{
    lemma_misplaced_from(files, 0);
}

proof fn lemma_misplaced_from(files: Seq<Seq<char>>, k: int)
    requires
        0 <= k <= files.len(),
    ensures
        misplaced_from(files, k) is None <==> forall|i: int|
            k <= i < files.len() ==> !misplaced(#[trigger] files[i]),
        misplaced_from(files, k) matches Some(file) ==> exists|i: int|
            {
                &&& k <= i < files.len()
                &&& #[trigger] files[i] == file
                &&& misplaced(file)
                &&& forall|j: int| k <= j < i ==> !misplaced(#[trigger] files[j])
            },
    decreases files.len() - k,
{
    if k < files.len() {
        if misplaced(files[k]) {
            assert(files[k] == misplaced_from(files, k)->0);
        } else {
            lemma_misplaced_from(files, k + 1);
        }
    }
}

/// A file that is not misplaced lies in a relative directory of ordinary
/// components.
proof fn lemma_file_dir(file: Seq<char>)
    requires
        !misplaced(file),
    ensures
        path::ordinary_path(file_dir(file)),
{
    reveal(file_dir);
    let list = path::names_without_dot(written_dir(file));
    path::lemma_names_without_dot(written_dir(file));
    path::lemma_joined_names(list);
}

/// `dir` is among `dirs`, as a path.
pub open spec fn has_dir(dirs: Seq<Seq<char>>, dir: Seq<char>) -> bool {
    exists|i: int|
        0 <= i < dirs.len() && path::components(#[trigger] dirs[i]) == path::components(dir)
}

/// The directories that directly contain the given files, each once, in the
/// order in which they first come up.
pub open spec fn dirs_of(files: Seq<Seq<char>>) -> Seq<Seq<char>>
    decreases files.len(),
{
    if files.len() == 0 {
        Seq::empty()
    } else {
        let before = dirs_of(files.drop_last());
        let dir = file_dir(files.last());
        if has_dir(before, dir) {
            before
        } else {
            before.push(dir)
        }
    }
}

/// `dir` lies strictly below one of `dirs`.
pub open spec fn nested(dir: Seq<char>, dirs: Seq<Seq<char>>) -> bool {
    exists|i: int|
        0 <= i < dirs.len() && path::components(#[trigger] dirs[i]) != path::components(dir)
            && path::lies_under(dir, dirs[i])
}

/// The list is in path order, with nothing in it twice.
pub open spec fn in_path_order(points: Seq<Seq<char>>) -> bool {
    forall|i: int, j: int|
        0 <= i < j < points.len() ==> path::path_before(#[trigger] points[i], #[trigger] points[j])
}

/// `points` are the mount points of a `mount/` directory that holds `files`:
/// the directories that directly contain a file, without those that lie below
/// another, in path order.
pub open spec fn derived_from(points: Seq<Seq<char>>, files: Seq<Seq<char>>) -> bool {
    let dirs = dirs_of(files);
    &&& in_path_order(points)
    &&& forall|dir: Seq<char>| #[trigger]
        points.contains(dir) <==> dirs.contains(dir) && !nested(dir, dirs)
}

/// The paths of a list of mount points.
pub open spec fn point_paths(points: Seq<MountPoint>) -> Seq<Seq<char>> {
    points.map_values(|p: MountPoint| p@)
}

/// What is said of a misplaced mount file: that it lies outside `mount/`, or
/// directly under it.
pub open spec fn misplaced_text(fragment: Seq<char>, file: Seq<char>) -> Seq<char> {
    let head = "fragment '"@ + fragment + "': mount/"@ + file;
    if strays(file) {
        head
            + " does not lie below mount/. A mount point is derived from the directory that directly contains a file, and it must be a relative path of ordinary components. Move the file to the path it should appear at during the build, for example mount/etc/pki/entitlement/cert.pem."@
    } else {
        head
            + " is a regular file directly under mount/, which would derive a bind mount onto /. A mount point is derived from the directory that directly contains a file, so a file at the top of mount/ would mount the filesystem root and every other mount point would be pruned as nested inside it. Move it to the path it should appear at during the build, for example mount/etc/pki/entitlement/"@
            + file + "."@
    }
}

/// A mount file from which no mount point can be derived.
#[derive(Debug, Clone)]
pub struct MisplacedMountFile {
    pub fragment: String,
    pub file: String,
}

impl MisplacedMountFile {
    pub fn message(&self) -> (out: String)
        ensures
            out@ == misplaced_text(self.fragment@, self.file@),
    {
        let mut out = "fragment '".to_owned();
        out.append(self.fragment.as_str());
        out.append("': mount/");
        out.append(self.file.as_str());
        let names = undotted_names(written_dir_of(self.file.as_str()).as_str());
        if is_astray(self.file.as_str(), &names) {
            out.append(" does not lie below mount/. A mount point is derived from the directory that directly contains a file, and it must be a relative path of ordinary components. Move the file to the path it should appear at during the build, for example mount/etc/pki/entitlement/cert.pem.");
        } else {
            out.append(" is a regular file directly under mount/, which would derive a bind mount onto /. A mount point is derived from the directory that directly contains a file, so a file at the top of mount/ would mount the filesystem root and every other mount point would be pruned as nested inside it. Move it to the path it should appear at during the build, for example mount/etc/pki/entitlement/");
            out.append(self.file.as_str());
            out.append(".");
        }
        out
    }
}

/// The directory that directly contains `file`, as `file` writes it.
fn written_dir_of(file: &str) -> (out: String)
    ensures
        out@ == written_dir(file@),
{
    match parent(file) {
        Some(dir) => dir,
        None => String::new(),
    }
}

/// Whether `file` may lie outside the directory that it is given relative to,
/// given the names of its directory.
fn is_astray(file: &str, names: &Vec<String>) -> (r: bool)
    requires
        text::texts(names@) == path::names_without_dot(written_dir(file@)),
    ensures
        r == strays(file@),
{
    let ghost all = text::texts(names@);
    proof {
        reveal_strlit("/");
        reveal_strlit("..");
        assert("/"@ =~= seq!['/']);
        assert(".."@ =~= seq!['.', '.']);
        if path::is_absolute(file@) {
            assert("/"@.is_prefix_of(file@));
        }
        if "/"@.is_prefix_of(file@) {
            assert("/"@[0] == file@[0]);
        }
    }
    if starts_with(file, "/") {
        return true;
    }
    for i in 0..names.len()
        invariant
            all == text::texts(names@),
            all == path::names_without_dot(written_dir(file@)),
            ".."@ == seq!['.', '.'],
            forall|j: int| 0 <= j < i ==> #[trigger] all[j] != seq!['.', '.'],
    {
        assert(all[i as int] == names@[i as int]@);
        if same_text(names[i].as_str(), "..") {
            assert(all.contains(seq!['.', '.']));
            return true;
        }
    }
    false
}

/// Whether `dir` is among `dirs`, as a path.
fn contains_dir(dirs: &Vec<String>, dir: &str) -> (r: bool)
    ensures
        r == has_dir(text::texts(dirs@), dir@),
{
    let ghost all = text::texts(dirs@);
    for i in 0..dirs.len()
        invariant
            all == text::texts(dirs@),
            forall|j: int|
                0 <= j < i ==> path::components(#[trigger] all[j]) != path::components(dir@),
    {
        assert(all[i as int] == dirs@[i as int]@);
        if same_path(dirs[i].as_str(), dir) {
            return true;
        }
    }
    false
}

/// Whether `dir` lies strictly below one of `dirs`.
fn is_nested(dir: &str, dirs: &Vec<String>) -> (r: bool)
    ensures
        r == nested(dir@, text::texts(dirs@)),
{
    let ghost all = text::texts(dirs@);
    for i in 0..dirs.len()
        invariant
            all == text::texts(dirs@),
            forall|j: int|
                0 <= j < i ==> !(path::components(#[trigger] all[j]) != path::components(dir@)
                    && path::lies_under(dir@, all[j])),
    {
        assert(all[i as int] == dirs@[i as int]@);
        if !same_path(dirs[i].as_str(), dir) && is_under(dir, dirs[i].as_str()) {
            return true;
        }
    }
    false
}

/// Puts `point` into `points` where the path order wants it.
fn insert_in_order(points: &mut Vec<MountPoint>, point: MountPoint)
    requires
        in_path_order(point_paths(old(points)@)),
        !has_dir(point_paths(old(points)@), point@),
    ensures
        in_path_order(point_paths(final(points)@)),
        forall|dir: Seq<char>| #[trigger]
            point_paths(final(points)@).contains(dir) <==> (point_paths(old(points)@).contains(dir)
                || dir == point@),
{
    let ghost before = point_paths(points@);
    let mut at: usize = 0;
    while at < points.len() && path_less(points[at].path.as_str(), point.path.as_str())
        invariant
            points@ == old(points)@,
            before == point_paths(points@),
            at <= points.len(),
            forall|j: int| 0 <= j < at ==> path::path_before(#[trigger] before[j], point@),
        decreases points.len() - at,
    {
        assert(before[at as int] == points@[at as int]@);
        at = at + 1;
    }
    proof {
        assert forall|j: int| at <= j < before.len() implies path::path_before(
            point@,
            #[trigger] before[j],
        ) by {
            assert(before[at as int] == points@[at as int]@);
            path::lemma_path_order_total(before[at as int], point@);
            if j > at {
                path::lemma_path_order_transitive(point@, before[at as int], before[j]);
            }
        }
    }
    let ghost value = point@;
    points.insert(at, point);
    proof {
        let now = point_paths(points@);
        assert(now =~= before.insert(at as int, value));
        assert forall|i: int, j: int| 0 <= i < j < now.len() implies path::path_before(
            #[trigger] now[i],
            #[trigger] now[j],
        ) by {
            let bi = if i < at {
                i
            } else {
                i - 1
            };
            let bj = if j < at {
                j
            } else {
                j - 1
            };
            if i != at {
                assert(now[i] == before[bi]);
            }
            if j != at {
                assert(now[j] == before[bj]);
            }
        }
        assert forall|dir: Seq<char>| #[trigger] now.contains(dir) <==> (before.contains(dir)
            || dir == value) by {
            if before.contains(dir) {
                let k = choose|k: int| 0 <= k < before.len() && before[k] == dir;
                if k < at {
                    assert(now[k] == dir);
                } else {
                    assert(now[k + 1] == dir);
                }
            }
            if dir == value {
                assert(now[at as int] == dir);
            }
            if now.contains(dir) {
                let k = choose|k: int| 0 <= k < now.len() && now[k] == dir;
                if k < at {
                    assert(before[k] == dir);
                } else if k > at {
                    assert(before[k - 1] == dir);
                }
            }
        }
    }
}

/// No directory comes up twice.
proof fn lemma_dirs_distinct(files: Seq<Seq<char>>)
    ensures
        forall|i: int, j: int|
            0 <= i < j < dirs_of(files).len() ==> path::components(#[trigger] dirs_of(files)[i])
                != path::components(#[trigger] dirs_of(files)[j]),
    decreases files.len(),
{
    if files.len() > 0 {
        let before = dirs_of(files.drop_last());
        lemma_dirs_distinct(files.drop_last());
        assert forall|i: int, j: int| 0 <= i < j < dirs_of(files).len() implies path::components(
            #[trigger] dirs_of(files)[i],
        ) != path::components(#[trigger] dirs_of(files)[j]) by {
            assert(dirs_of(files)[i] == before[i]);
            if j < before.len() {
                assert(dirs_of(files)[j] == before[j]);
            }
        }
    }
}

/// Derive one mount point per directory under `mount/` that directly
/// contains a regular file, then drop any that is nested inside another. A
/// file directly under `mount/` is refused, and so is one whose directory
/// cannot be told to lie below it.
///
/// `mount_files` are file paths relative to `mount/`, for example
/// `etc/pki/entitlement/cert.pem`. The result is sorted, so emission order
/// is stable across runs.
pub fn derive_mount_points(fragment_name: &str, mount_files: &[String]) -> (r: Result<
    Vec<MountPoint>,
    MisplacedMountFile,
>)
    ensures
        match r {
            Ok(points) => {
                &&& misplaced_file(text::texts(mount_files@)) is None
                &&& derived_from(point_paths(points@), text::texts(mount_files@))
                &&& forall|i: int|
                    0 <= i < points@.len() ==> path::ordinary_path((#[trigger] points@[i])@)
            },
            Err(e) => {
                &&& misplaced_file(text::texts(mount_files@)) == Some(e.file@)
                &&& e.fragment@ == fragment_name@
            },
        },
{
    let ghost files = text::texts(mount_files@);
    let mut dirs: Vec<String> = Vec::new();
    assert(files.take(0) =~= Seq::<Seq<char>>::empty());
    for i in 0..mount_files.len()
        invariant
            files == text::texts(mount_files@),
            text::texts(dirs@) == dirs_of(files.take(i as int)),
            forall|j: int|
                0 <= j < dirs@.len() ==> path::ordinary_path((#[trigger] dirs@[j])@),
            misplaced_file(files) == misplaced_from(files, i as int),
    {
        assert(files[i as int] == mount_files@[i as int]@);
        let file = mount_files[i].as_str();
        let names = undotted_names(written_dir_of(file).as_str());
        assert(text::texts(names@).len() == names@.len());
        if is_astray(file, &names) || names.len() == 0 {
            return Err(
                MisplacedMountFile { fragment: fragment_name.to_owned(), file: file.to_owned() },
            );
        }
        proof {
            reveal_strlit("/");
            assert("/"@ =~= seq!['/']);
        }
        let dir = join(&names, "/");
        proof {
            lemma_file_dir(file@);
            reveal(file_dir);
            assert(dir@ == file_dir(files[i as int]));
            assert(files.take(i + 1).drop_last() =~= files.take(i as int));
            assert(files.take(i + 1).last() == mount_files@[i as int]@);
        }
        if !contains_dir(&dirs, dir.as_str()) {
            let ghost before = text::texts(dirs@);
            let ghost added = dir@;
            dirs.push(dir);
            assert(text::texts(dirs@) =~= before.push(added));
        }
    }
    let ghost all = text::texts(dirs@);
    proof {
        assert(files.take(files.len() as int) =~= files);
        lemma_dirs_distinct(files);
    }
    let mut kept: Vec<MountPoint> = Vec::new();
    for i in 0..dirs.len()
        invariant
            all == text::texts(dirs@),
            all == dirs_of(files),
            forall|j: int|
                0 <= j < dirs@.len() ==> path::ordinary_path((#[trigger] dirs@[j])@),
            forall|a: int, b: int|
                0 <= a < b < all.len() ==> path::components(#[trigger] all[a])
                    != path::components(#[trigger] all[b]),
            in_path_order(point_paths(kept@)),
            forall|dir: Seq<char>| #[trigger]
                point_paths(kept@).contains(dir) <==> all.take(i as int).contains(dir) && !nested(
                    dir,
                    all,
                ),
    {
        let ghost so_far = point_paths(kept@);
        let ghost dir = all[i as int];
        assert(dir == dirs@[i as int]@);
        proof {
            assert(!has_dir(so_far, dir)) by {
                if has_dir(so_far, dir) {
                    let k = choose|k: int|
                        0 <= k < so_far.len() && path::components(#[trigger] so_far[k])
                            == path::components(dir);
                    assert(so_far.contains(so_far[k]));
                    assert(all.take(i as int).contains(so_far[k]));
                    let m = choose|m: int|
                        0 <= m < i && all.take(i as int)[m] == so_far[k];
                    assert(all[m] == so_far[k]);
                }
            }
            assert forall|d: Seq<char>| #[trigger] all.take(i + 1).contains(d) <==> (all.take(
                i as int,
            ).contains(d) || d == dir) by {
                let now = all.take(i + 1);
                let prev = all.take(i as int);
                if prev.contains(d) {
                    let m = choose|m: int| 0 <= m < prev.len() && prev[m] == d;
                    assert(now[m] == d);
                }
                if d == dir {
                    assert(now[i as int] == d);
                }
                if now.contains(d) {
                    let m = choose|m: int| 0 <= m < now.len() && now[m] == d;
                    if m < i {
                        assert(prev[m] == d);
                    }
                }
            }
        }
        if !is_nested(dirs[i].as_str(), &dirs) {
            insert_in_order(&mut kept, MountPoint { path: dirs[i].clone() });
        }
    }
    assert(all.take(all.len() as int) =~= all);
    proof {
        let points = point_paths(kept@);
        assert forall|i: int| 0 <= i < kept@.len() implies path::ordinary_path(
            (#[trigger] kept@[i])@,
        ) by {
            assert(points[i] == kept@[i]@);
            assert(points.contains(points[i]));
            law_derived_targets_are_usable(points, files, points[i]);
        }
    }
    Ok(kept)
}

/// Notice for a fragment carrying a `mount/` directory that holds no regular
/// files and therefore derives no mounts at all.
pub open spec fn empty_mount_text(fragment_name: Seq<char>) -> Seq<char> {
    "notice: fragment '"@ + fragment_name
        + "' carries a mount/ directory holding no files, so it derives no build mounts and nothing is mounted into the package or hook steps. Put the material at the path it should appear at during the build, for example mount/etc/pki/entitlement/cert.pem."@
}

/// Notice for a fragment carrying a `mount/` directory that holds no regular
/// files and therefore derives no mounts at all. Almost always an authoring
/// mistake, and silence would hide it.
///
/// The text is returned rather than printed: only the callers know when a run
/// should say anything.
pub fn empty_mount_notice(
    fragment_name: &str,
    has_mount_dir: bool,
    derived: &[MountPoint],
) -> (notice: Option<String>)
    ensures
        text::opt_text(notice) == if has_mount_dir && derived@.len() == 0 {
            Some(empty_mount_text(fragment_name@))
        } else {
            None
        },
{
    if has_mount_dir && derived.len() == 0 {
        let mut out = "notice: fragment '".to_owned();
        out.append(fragment_name);
        out.append("' carries a mount/ directory holding no files, so it derives no build mounts and nothing is mounted into the package or hook steps. Put the material at the path it should appear at during the build, for example mount/etc/pki/entitlement/cert.pem.");
        Some(out)
    } else {
        None
    }
}

/// The target of each mount point of a list.
pub open spec fn target_texts(points: Seq<Seq<char>>) -> Seq<Seq<char>> {
    points.map_values(|p: Seq<char>| target_text(p))
}

/// The target of each mount point of a list.
pub fn targets(points: &[MountPoint]) -> (out: Vec<String>)
    ensures
        text::texts(out@) == target_texts(point_paths(points@)),
{
    let ghost all = target_texts(point_paths(points@));
    let mut out: Vec<String> = Vec::new();
    for i in 0..points.len()
        invariant
            all == target_texts(point_paths(points@)),
            text::texts(out@) == all.take(i as int),
    {
        let ghost before = text::texts(out@);
        let target = points[i].target();
        let ghost added = target@;
        assert(all[i as int] == added);
        out.push(target);
        assert(text::texts(out@) =~= before.push(added));
        assert(text::texts(out@) =~= all.take(i + 1));
    }
    assert(all.take(all.len() as int) =~= all);
    out
}

/// The targets, comma-separated, or `(none)`.
pub open spec fn target_list_text(points: Seq<Seq<char>>) -> Seq<char> {
    if points.len() == 0 {
        "(none)"@
    } else {
        text::joined(target_texts(points), ", "@)
    }
}

/// The targets, comma-separated, or `(none)`.
fn target_list(points: &[MountPoint]) -> (out: String)
    ensures
        out@ == target_list_text(point_paths(points@)),
{
    if points.len() == 0 {
        "(none)".to_owned()
    } else {
        join(&targets(points), ", ")
    }
}

/// The two lists hold the same paths in the same order.
pub open spec fn same_points(a: Seq<Seq<char>>, b: Seq<Seq<char>>) -> bool {
    &&& a.len() == b.len()
    &&& forall|i: int|
        0 <= i < a.len() ==> path::components(#[trigger] a[i]) == path::components(b[i])
}

/// Whether the two lists hold the same paths in the same order.
fn points_agree(a: &[MountPoint], b: &[MountPoint]) -> (r: bool)
    ensures
        r == same_points(point_paths(a@), point_paths(b@)),
{
    let ghost left = point_paths(a@);
    let ghost right = point_paths(b@);
    if a.len() != b.len() {
        assert(left.len() != right.len());
        return false;
    }
    for i in 0..a.len()
        invariant
            a@.len() == b@.len(),
            left == point_paths(a@),
            right == point_paths(b@),
            forall|j: int|
                0 <= j < i ==> path::components(#[trigger] left[j]) == path::components(right[j]),
    {
        assert(left[i as int] == a@[i as int]@);
        assert(right[i as int] == b@[i as int]@);
        if !same_path(a[i].path.as_str(), b[i].path.as_str()) {
            return false;
        }
    }
    true
}

/// Warning for a fragment whose mounts annotation disagrees with the mount
/// points derived from its layers.
pub open spec fn drift_text(
    fragment_name: Seq<char>,
    annotated: Seq<Seq<char>>,
    derived: Seq<Seq<char>>,
) -> Seq<char> {
    "warning: fragment '"@ + fragment_name
        + "' annotates mount targets that do not match its layers. Annotated: "@
        + target_list_text(annotated) + ". Derived from the layer: "@ + target_list_text(derived)
        + ". The layer is authoritative and generation uses the derived targets. Rebuild the fragment with a corrected "@
        + MOUNTS_ANNOTATION_KEY@ + " annotation so metadata-only reads agree with it."@
}

/// The warning, where the lists disagree.
pub open spec fn drift(
    fragment_name: Seq<char>,
    annotated: Seq<Seq<char>>,
    derived: Seq<Seq<char>>,
) -> Option<Seq<char>> {
    if same_points(annotated, derived) {
        None
    } else {
        Some(drift_text(fragment_name, annotated, derived))
    }
}

/// Warning for a fragment whose mounts annotation disagrees with the mount
/// points derived from its layers.
///
/// The other annotations cache the in-layer `fragment.toml` and reconcile
/// against it. A mounts annotation has no in-layer file to reconcile
/// against, so its counterpart is the derived targets, and the layer stays
/// authoritative exactly as it is for every other annotation.
pub fn mount_annotation_drift(
    fragment_name: &str,
    annotated: &[MountPoint],
    derived: &[MountPoint],
) -> (warning: Option<String>)
    ensures
        text::opt_text(warning) == drift(
            fragment_name@,
            point_paths(annotated@),
            point_paths(derived@),
        ),
{
    if points_agree(annotated, derived) {
        return None;
    }
    let mut out = "warning: fragment '".to_owned();
    out.append(fragment_name);
    out.append("' annotates mount targets that do not match its layers. Annotated: ");
    out.append(target_list(annotated).as_str());
    out.append(". Derived from the layer: ");
    out.append(target_list(derived).as_str());
    out.append(". The layer is authoritative and generation uses the derived targets. Rebuild the fragment with a corrected ");
    out.append(MOUNTS_ANNOTATION_KEY);
    out.append(" annotation so metadata-only reads agree with it.");
    Some(out)
}

/// Whether a materialization run writes a fragment's `mount/` subtree into
/// the build context.
#[derive(Debug, Clone, Copy, PartialEq, Eq, Structural)]
pub enum MountMaterialization {
    /// Default: `mount/` entries are skipped entirely, and no build-mount
    /// material lands in the context or its archive.
    Skip,
    /// `--materialize-mounts`: `mount/` lands in the context, owner-only.
    Write,
}

impl MountMaterialization {
    /// From the `--materialize-mounts` flag.
    pub fn from_flag(materialize_mounts: bool) -> (r: Self)
        ensures
            r == if materialize_mounts {
                MountMaterialization::Write
            } else {
                MountMaterialization::Skip
            },
    {
        if materialize_mounts {
            Self::Write
        } else {
            Self::Skip
        }
    }
}

/// In path order, the last entry of a list sorts at or after every path that
/// the list holds.
proof fn lemma_last_is_greatest(list: Seq<Seq<char>>, dir: Seq<char>)
    requires
        in_path_order(list),
        has_dir(list, dir),
    ensures
        list.len() > 0,
        !path::path_before(list.last(), dir),
{
    let j = choose|j: int|
        0 <= j < list.len() && path::components(#[trigger] list[j]) == path::components(dir);
    if j < list.len() - 1 {
        assert(path::path_before(list[j], list[list.len() - 1]));
    }
    path::lemma_path_order_total(list[j], list.last());
}

/// Without its last entry a list in path order holds the same paths but that
/// one.
proof fn lemma_drop_last(list: Seq<Seq<char>>, dir: Seq<char>)
    requires
        in_path_order(list),
        has_dir(list, dir),
        path::components(dir) != path::components(list.last()),
    ensures
        has_dir(list.drop_last(), dir),
{
    let j = choose|j: int|
        0 <= j < list.len() && path::components(#[trigger] list[j]) == path::components(dir);
    assert(list.drop_last()[j] == list[j]);
}

/// A list in path order stays so without its last entry, which is then found
/// nowhere in it.
proof fn lemma_drop_last_order(list: Seq<Seq<char>>)
    requires
        in_path_order(list),
        list.len() > 0,
    ensures
        in_path_order(list.drop_last()),
        forall|i: int|
            0 <= i < list.len() - 1 ==> path::components(#[trigger] list[i]) != path::components(
                list.last(),
            ),
{
    let rest = list.drop_last();
    assert forall|x: int, y: int| 0 <= x < y < rest.len() implies path::path_before(
        #[trigger] rest[x],
        #[trigger] rest[y],
    ) by {
        assert(rest[x] == list[x] && rest[y] == list[y]);
    }
    assert forall|i: int| 0 <= i < list.len() - 1 implies path::components(#[trigger] list[i])
        != path::components(list.last()) by {
        assert(path::path_before(list[i], list[list.len() - 1]));
        path::lemma_path_order_total(list[i], list.last());
    }
}

/// Two lists in path order that hold the same paths hold them at the same
/// places.
proof fn lemma_same_order(a: Seq<Seq<char>>, b: Seq<Seq<char>>)
    requires
        in_path_order(a),
        in_path_order(b),
        forall|i: int| 0 <= i < a.len() ==> #[trigger] has_dir(b, a[i]),
        forall|i: int| 0 <= i < b.len() ==> #[trigger] has_dir(a, b[i]),
    ensures
        a.len() == b.len(),
        forall|i: int|
            0 <= i < a.len() ==> path::components(#[trigger] a[i]) == path::components(b[i]),
    decreases a.len(),
{
    if a.len() == 0 {
        if b.len() > 0 {
            assert(has_dir(a, b[0]));
        }
    } else {
        assert(has_dir(b, a[a.len() - 1]));
        lemma_last_is_greatest(b, a.last());
        assert(has_dir(a, b[b.len() - 1]));
        lemma_last_is_greatest(a, b.last());
        path::lemma_path_order_total(a.last(), b.last());
        lemma_drop_last_order(a);
        lemma_drop_last_order(b);
        let ra = a.drop_last();
        let rb = b.drop_last();
        assert forall|i: int| 0 <= i < ra.len() implies #[trigger] has_dir(rb, ra[i]) by {
            assert(ra[i] == a[i]);
            lemma_drop_last(b, a[i]);
        }
        assert forall|i: int| 0 <= i < rb.len() implies #[trigger] has_dir(ra, rb[i]) by {
            assert(rb[i] == b[i]);
            lemma_drop_last(a, b[i]);
        }
        lemma_same_order(ra, rb);
        assert forall|i: int| 0 <= i < a.len() implies path::components(#[trigger] a[i])
            == path::components(b[i]) by {
            if i < ra.len() {
                assert(ra[i] == a[i]);
                assert(rb[i] == b[i]);
            }
        }
    }
}

/// A directory comes up exactly when one of the files lies directly in it.
proof fn lemma_dirs_of(files: Seq<Seq<char>>)
    ensures
        forall|k: int| 0 <= k < files.len() ==> has_dir(dirs_of(files), file_dir(#[trigger] files[k])),
        forall|i: int|
            0 <= i < dirs_of(files).len() ==> exists|k: int|
                0 <= k < files.len() && file_dir(#[trigger] files[k]) == #[trigger] dirs_of(
                    files,
                )[i],
    decreases files.len(),
{
    if files.len() > 0 {
        let rest = files.drop_last();
        let before = dirs_of(rest);
        let all = dirs_of(files);
        lemma_dirs_of(rest);
        assert forall|k: int| 0 <= k < files.len() implies has_dir(
            all,
            file_dir(#[trigger] files[k]),
        ) by {
            let dir = file_dir(files[k]);
            if k < rest.len() {
                assert(rest[k] == files[k]);
                assert(has_dir(before, dir));
            }
            if has_dir(before, dir) {
                let m = choose|m: int|
                    0 <= m < before.len() && path::components(#[trigger] before[m])
                        == path::components(dir);
                assert(all[m] == before[m]);
            } else {
                assert(all[before.len() as int] == dir);
            }
        }
        assert forall|i: int| 0 <= i < all.len() implies exists|k: int|
            0 <= k < files.len() && file_dir(#[trigger] files[k]) == #[trigger] all[i] by {
            if i < before.len() {
                assert(all[i] == before[i]);
                let k = choose|k: int|
                    0 <= k < rest.len() && file_dir(#[trigger] rest[k]) == before[i];
                assert(files[k] == rest[k]);
            } else {
                assert(file_dir(files[files.len() - 1]) == all[i]);
            }
        }
    }
}

/// Below every directory that comes up, or at it, stands one that is kept.
proof fn lemma_kept_above(dirs: Seq<Seq<char>>, i: int) -> (k: int)
    requires
        0 <= i < dirs.len(),
    ensures
        0 <= k < dirs.len(),
        !nested(dirs[k], dirs),
        path::lies_under(dirs[i], dirs[k]),
    decreases path::components(dirs[i]).len(),
{
    if nested(dirs[i], dirs) {
        let j = choose|j: int|
            0 <= j < dirs.len() && path::components(#[trigger] dirs[j]) != path::components(dirs[i])
                && path::lies_under(dirs[i], dirs[j]);
        let outer = path::components(dirs[j]);
        let inner = path::components(dirs[i]);
        if outer.len() == inner.len() {
            assert(outer =~= inner);
        }
        let k = lemma_kept_above(dirs, j);
        k
    } else {
        i
    }
}

/// Every file of a `mount/` directory is reached through a mount: the
/// directory that directly contains it lies at a derived mount point or below
/// one.
pub proof fn law_every_mount_file_is_covered(
    points: Seq<Seq<char>>,
    files: Seq<Seq<char>>,
    file: Seq<char>,
)
    requires
        derived_from(points, files),
        files.contains(file),
    ensures
        exists|i: int| 0 <= i < points.len() && path::lies_under(file_dir(file), #[trigger] points[i]),
{
    let dirs = dirs_of(files);
    lemma_dirs_of(files);
    let f = choose|f: int| 0 <= f < files.len() && files[f] == file;
    assert(has_dir(dirs, file_dir(files[f])));
    let d = choose|d: int|
        0 <= d < dirs.len() && path::components(#[trigger] dirs[d]) == path::components(
            file_dir(file),
        );
    let k = lemma_kept_above(dirs, d);
    assert(dirs.contains(dirs[k]));
    assert(points.contains(dirs[k]));
    let i = choose|i: int| 0 <= i < points.len() && points[i] == dirs[k];
    assert(path::lies_under(file_dir(file), points[i]));
}

/// Every derived mount point is a directory that directly contains a file.
pub proof fn law_every_mount_point_holds_a_file(
    points: Seq<Seq<char>>,
    files: Seq<Seq<char>>,
    point: Seq<char>,
)
    requires
        derived_from(points, files),
        points.contains(point),
    ensures
        exists|k: int| 0 <= k < files.len() && file_dir(#[trigger] files[k]) == point,
{
    let dirs = dirs_of(files);
    lemma_dirs_of(files);
    assert(dirs.contains(point));
    let i = choose|i: int| 0 <= i < dirs.len() && dirs[i] == point;
    assert(dirs[i] == point);
}

/// No derived mount point lies inside another, and none comes twice.
pub proof fn law_mount_points_never_overlap(
    points: Seq<Seq<char>>,
    files: Seq<Seq<char>>,
    i: int,
    j: int,
)
    requires
        derived_from(points, files),
        0 <= i < points.len(),
        0 <= j < points.len(),
        i != j,
    ensures
        !paths_overlap(points[i], points[j]),
{
    let dirs = dirs_of(files);
    path::lemma_path_order_total(points[i], points[j]);
    if i < j {
        assert(path::path_before(points[i], points[j]));
    } else {
        assert(path::path_before(points[j], points[i]));
    }
    path::lemma_path_order_total(points[j], points[i]);
    assert(path::components(points[i]) != path::components(points[j]));
    assert(points.contains(points[i]));
    assert(points.contains(points[j]));
    assert(dirs.contains(points[i]));
    assert(dirs.contains(points[j]));
    let a = choose|a: int| 0 <= a < dirs.len() && dirs[a] == points[i];
    let b = choose|b: int| 0 <= b < dirs.len() && dirs[b] == points[j];
    assert(!nested(points[i], dirs));
    assert(!nested(points[j], dirs));
    assert(path::components(dirs[a]) == path::components(points[i]));
    assert(path::components(dirs[b]) == path::components(points[j]));
}

/// Among the directories of one list, one that comes up in the other too is
/// nested there alike.
proof fn lemma_nested_alike(dir: Seq<char>, other: Seq<char>, a: Seq<Seq<char>>, b: Seq<Seq<char>>)
    requires
        path::components(dir) == path::components(other),
        nested(dir, a),
        forall|i: int| 0 <= i < a.len() ==> #[trigger] has_dir(b, a[i]),
    ensures
        nested(other, b),
{
    let i = choose|i: int|
        0 <= i < a.len() && path::components(#[trigger] a[i]) != path::components(dir)
            && path::lies_under(dir, a[i]);
    assert(has_dir(b, a[i]));
    let k = choose|k: int|
        0 <= k < b.len() && path::components(#[trigger] b[k]) == path::components(a[i]);
    assert(path::lies_under(other, b[k]));
}

/// Every point derived from one list of files is among those derived from
/// another that holds the same files.
proof fn lemma_derived_among(
    points: Seq<Seq<char>>,
    files: Seq<Seq<char>>,
    other_points: Seq<Seq<char>>,
    other_files: Seq<Seq<char>>,
)
    requires
        derived_from(points, files),
        derived_from(other_points, other_files),
        forall|file: Seq<char>| #[trigger] files.contains(file) <==> other_files.contains(file),
    ensures
        forall|i: int| 0 <= i < points.len() ==> #[trigger] has_dir(other_points, points[i]),
{
    let dirs = dirs_of(files);
    let other_dirs = dirs_of(other_files);
    lemma_dirs_of(files);
    lemma_dirs_of(other_files);
    assert forall|i: int| 0 <= i < dirs.len() implies #[trigger] has_dir(other_dirs, dirs[i]) by {
        let k = choose|k: int| 0 <= k < files.len() && file_dir(#[trigger] files[k]) == dirs[i];
        assert(files.contains(files[k]));
        assert(other_files.contains(files[k]));
        let m = choose|m: int| 0 <= m < other_files.len() && other_files[m] == files[k];
        assert(has_dir(other_dirs, file_dir(other_files[m])));
    }
    assert forall|i: int| 0 <= i < other_dirs.len() implies #[trigger] has_dir(
        dirs,
        other_dirs[i],
    ) by {
        let k = choose|k: int|
            0 <= k < other_files.len() && file_dir(#[trigger] other_files[k]) == other_dirs[i];
        assert(other_files.contains(other_files[k]));
        assert(files.contains(other_files[k]));
        let m = choose|m: int| 0 <= m < files.len() && files[m] == other_files[k];
        assert(has_dir(dirs, file_dir(files[m])));
    }
    assert forall|i: int| 0 <= i < points.len() implies #[trigger] has_dir(
        other_points,
        points[i],
    ) by {
        assert(points.contains(points[i]));
        let d = choose|d: int| 0 <= d < dirs.len() && dirs[d] == points[i];
        assert(has_dir(other_dirs, dirs[d]));
        let o = choose|o: int|
            0 <= o < other_dirs.len() && path::components(#[trigger] other_dirs[o])
                == path::components(dirs[d]);
        if nested(other_dirs[o], other_dirs) {
            lemma_nested_alike(other_dirs[o], points[i], other_dirs, dirs);
        }
        assert(other_dirs.contains(other_dirs[o]));
        assert(other_points.contains(other_dirs[o]));
        let m = choose|m: int|
            0 <= m < other_points.len() && other_points[m] == other_dirs[o];
        assert(path::components(other_points[m]) == path::components(points[i]));
    }
}

/// The derived mount points depend on which files there are alone, not on the
/// order in which they are listed or on how often.
pub proof fn law_mount_points_ignore_file_order(
    points: Seq<Seq<char>>,
    files: Seq<Seq<char>>,
    other_points: Seq<Seq<char>>,
    other_files: Seq<Seq<char>>,
)
    requires
        derived_from(points, files),
        derived_from(other_points, other_files),
        forall|file: Seq<char>| #[trigger] files.contains(file) <==> other_files.contains(file),
    ensures
        points.len() == other_points.len(),
        forall|i: int|
            0 <= i < points.len() ==> path::components(#[trigger] points[i]) == path::components(
                other_points[i],
            ),
{
    lemma_derived_among(points, files, other_points, other_files);
    lemma_derived_among(other_points, other_files, points, files);
    lemma_same_order(points, other_points);
}

/// Which mount points are derived, and in which order, depends on the files
/// alone.
pub proof fn law_files_determine_mount_points(
    points: Seq<Seq<char>>,
    other_points: Seq<Seq<char>>,
    files: Seq<Seq<char>>,
)
    requires
        derived_from(points, files),
        derived_from(other_points, files),
    ensures
        points == other_points,
{
    law_mount_points_ignore_file_order(points, files, other_points, files);
    lemma_dirs_distinct(files);
    let dirs = dirs_of(files);
    assert forall|i: int| 0 <= i < points.len() implies #[trigger] points[i]
        == other_points[i] by {
        assert(points.contains(points[i]));
        assert(other_points.contains(other_points[i]));
        let a = choose|a: int| 0 <= a < dirs.len() && dirs[a] == points[i];
        let b = choose|b: int| 0 <= b < dirs.len() && dirs[b] == other_points[i];
        assert(path::components(dirs[a]) == path::components(dirs[b]));
    }
    assert(points =~= other_points);
}

/// A further file at a derived mount point or below one changes nothing: the
/// mount points derived with it are those derived without it.
pub proof fn law_covered_files_add_no_mount_point(
    points: Seq<Seq<char>>,
    files: Seq<Seq<char>>,
    file: Seq<char>,
    i: int,
)
    requires
        derived_from(points, files),
        0 <= i < points.len(),
        path::lies_under(file_dir(file), points[i]),
    ensures
        derived_from(points, files.push(file)),
        forall|other: Seq<Seq<char>>| #[trigger]
            derived_from(other, files.push(file)) ==> other == points,
{
    let more = files.push(file);
    let before = dirs_of(files);
    let all = dirs_of(more);
    let added = file_dir(file);
    let point = points[i];
    assert(more.drop_last() =~= files);
    assert(points.contains(point));
    let p = choose|p: int| 0 <= p < before.len() && before[p] == point;
    if !has_dir(before, added) {
        assert(all == before.push(added));
        assert(path::components(before[p]) != path::components(added));
        assert(all[p] == before[p]);
        assert(nested(added, all));
        assert forall|dir: Seq<char>| nested(dir, before) implies nested(dir, all) by {
            let k = choose|k: int|
                0 <= k < before.len() && path::components(#[trigger] before[k])
                    != path::components(dir) && path::lies_under(dir, before[k]);
            assert(all[k] == before[k]);
        }
        assert forall|dir: Seq<char>| nested(dir, all) implies nested(dir, before) by {
            let k = choose|k: int|
                0 <= k < all.len() && path::components(#[trigger] all[k]) != path::components(dir)
                    && path::lies_under(dir, all[k]);
            if k < before.len() {
                assert(all[k] == before[k]);
            } else {
                assert(all[k] == added);
                let inner = path::components(dir);
                let middle = path::components(added);
                let outer = path::components(point);
                assert(outer.is_prefix_of(inner)) by {
                    assert(inner.subrange(0, outer.len() as int) =~= middle.subrange(
                        0,
                        outer.len() as int,
                    ));
                }
                if outer == inner {
                    assert(middle =~= inner);
                }
                assert(path::components(before[p]) != path::components(dir));
                assert(path::lies_under(dir, before[p]));
            }
        }
        assert forall|dir: Seq<char>| #[trigger] points.contains(dir) <==> all.contains(dir)
            && !nested(dir, all) by {
            if before.contains(dir) {
                let k = choose|k: int| 0 <= k < before.len() && before[k] == dir;
                assert(all[k] == dir);
            }
            if all.contains(dir) && !before.contains(dir) {
                let k = choose|k: int| 0 <= k < all.len() && all[k] == dir;
                if k < before.len() {
                    assert(before[k] == dir);
                }
                assert(dir == added);
            }
        }
    }
    assert forall|other: Seq<Seq<char>>| #[trigger] derived_from(other, more) implies other
        == points by {
        law_files_determine_mount_points(other, points, more);
    }
}

/// Where no misplaced file is found, there is none.
proof fn lemma_none_misplaced(files: Seq<Seq<char>>, i: int)
    requires
        0 <= i,
        misplaced_from(files, i) is None,
    ensures
        forall|k: int| i <= k < files.len() ==> !misplaced(#[trigger] files[k]),
    decreases files.len() - i,
{
    if i < files.len() {
        lemma_none_misplaced(files, i + 1);
    }
}

/// Every derived mount point is a relative path of ordinary components. Its
/// target is one that an annotation may carry, and reading the target gives
/// the mount point back.
pub proof fn law_derived_targets_are_usable(
    points: Seq<Seq<char>>,
    files: Seq<Seq<char>>,
    point: Seq<char>,
)
    requires
        derived_from(points, files),
        misplaced_file(files) is None,
        points.contains(point),
    ensures
        path::ordinary_path(point),
        usable_target(target_text(point)),
        target_text(point).skip(1) == point,
{
    law_every_mount_point_holds_a_file(points, files, point);
    let k = choose|k: int| 0 <= k < files.len() && file_dir(#[trigger] files[k]) == point;
    lemma_none_misplaced(files, 0);
    lemma_file_dir(files[k]);
    reveal_strlit("/");
    assert(target_text(point).skip(1) =~= point);
}

/// A target that an annotation may carry is the target of the mount point it
/// stands for.
pub proof fn law_target_round_trip(target: Seq<char>)
    requires
        usable_target(target),
    ensures
        target_text(target.skip(1)) == target,
{
    reveal_strlit("/");
    assert(target_text(target.skip(1)) =~= target);
}

/// Overlap goes both ways, and every mount point overlaps itself.
pub proof fn law_overlap_is_symmetric(a: Seq<char>, b: Seq<char>)
    ensures
        paths_overlap(a, b) == paths_overlap(b, a),
        paths_overlap(a, a),
{
}

/// Two mount points overlap exactly when one of them shadows the other's
/// target.
pub proof fn law_overlap_is_mutual_shadowing(a: Seq<char>, b: Seq<char>)
    requires
        usable_target(target_text(a)),
        usable_target(target_text(b)),
    ensures
        paths_overlap(a, b) <==> path::lies_under(
            text::without_leading(target_text(a), '/'),
            b,
        ) || path::lies_under(text::without_leading(target_text(b), '/'), a),
{
    reveal_strlit("/");
    assert(target_text(a).skip(1) =~= a);
    assert(target_text(b).skip(1) =~= b);
    path::lemma_ordinary_path(a);
    path::lemma_ordinary_path(b);
    assert(text::without_leading(a, '/') == a);
    assert(text::without_leading(b, '/') == b);
}

/// A mount file lies in the directory that its path names, and no mount point
/// can be derived from one that lies at the top, that is given by an absolute
/// path, or whose directory climbs.
pub proof fn law_mount_file_lies_in_its_directory(dir: Seq<char>, name: Seq<char>)
    requires
        path::ordinary_path(dir),
        path::plain_name(name),
    ensures
        file_dir(dir + seq!['/'] + name) == dir,
        !misplaced(dir + seq!['/'] + name),
        misplaced(name),
        !strays(name),
        strays(seq!['/'] + name),
        strays(seq!['/'] + dir + seq!['/'] + name),
        strays(seq!['.', '.', '/'] + name),
{
    reveal(file_dir);
    path::law_path_is_directory_and_name(dir, name);
    path::lemma_ordinary_path(dir);
    let names = path::names(dir);
    assert(names[0] != seq!['.']) by {
        assert(path::plain_name(names[0]));
    }
    assert(path::names_without_dot(dir) == names);
    assert(!names.contains(seq!['.', '.'])) by {
        if names.contains(seq!['.', '.']) {
            let k = choose|k: int| 0 <= k < names.len() && names[k] == seq!['.', '.'];
            assert(path::plain_name(names[k]));
        }
    }
    assert((dir + seq!['/'] + name)[0] == dir[0]);
    assert(name[0] != '/') by {
        assert(name.contains(name[0]));
    }
    let empty = Seq::<char>::empty();
    assert(path::names(empty) =~= Seq::<Seq<char>>::empty());
    assert(path::names_without_dot(empty) =~= Seq::<Seq<char>>::empty());
    let up = seq!['.', '.'];
    let climbing = seq!['.', '.', '/'] + name;
    assert(climbing =~= up + seq!['/'] + name);
    assert(!up.contains('/')) by {
        if up.contains('/') {
            let k = choose|k: int| 0 <= k < up.len() && up[k] == '/';
            assert(up[0] == '.' && up[1] == '.');
        }
    }
    path::law_path_names_its_pieces(up, name);
    path::law_path_names_its_pieces(up, up);
    assert(path::names(up) == seq![up]);
    path::lemma_parent_of_two(up, name);
    assert(written_dir(climbing) == up);
    assert(path::names_without_dot(up) == seq![up]) by {
        assert(path::names(up)[0] == up);
        assert(up.len() == 2);
    }
    assert(path::names_without_dot(up)[0] == up);
    assert(path::names_without_dot(up).contains(up));
}

/// The mount points of files are the outermost of the directories that they
/// lie in: a directory is one exactly when some file lies in it and no file
/// lies in a directory above it. They come in path order, each once.
pub proof fn law_mount_points_are_the_outermost_directories(
    points: Seq<Seq<char>>,
    files: Seq<Seq<char>>,
    dirs: Seq<Seq<char>>,
    names: Seq<Seq<char>>,
)
    requires
        derived_from(points, files),
        files.len() == dirs.len(),
        files.len() == names.len(),
        forall|i: int|
            0 <= i < files.len() ==> {
                &&& path::ordinary_path(dirs[i])
                &&& path::plain_name(names[i])
                &&& #[trigger] files[i] == dirs[i] + seq!['/'] + names[i]
            },
    ensures
        forall|dir: Seq<char>| #[trigger]
            points.contains(dir) <==> dirs.contains(dir) && !exists|j: int|
                0 <= j < dirs.len() && (#[trigger] dirs[j] + seq!['/']).is_prefix_of(dir),
        forall|i: int, j: int|
            0 <= i < j < points.len() ==> path::path_before(
                #[trigger] points[i],
                #[trigger] points[j],
            ),
{
    let all = dirs_of(files);
    lemma_dirs_of(files);
    assert forall|i: int| 0 <= i < files.len() implies file_dir(#[trigger] files[i]) == dirs[i]
        && path::ordinary_path(dirs[i]) by {
        assert(files[i] == dirs[i] + seq!['/'] + names[i]);
        law_mount_file_lies_in_its_directory(dirs[i], names[i]);
    }
    assert forall|i: int| 0 <= i < dirs.len() implies path::ordinary_path(#[trigger] dirs[i]) by {
        assert(file_dir(files[i]) == dirs[i]);
    }
    assert forall|k: int| 0 <= k < all.len() implies dirs.contains(#[trigger] all[k]) by {
        let i = choose|i: int| 0 <= i < files.len() && file_dir(#[trigger] files[i]) == all[k];
        assert(dirs[i] == all[k]);
    }
    assert forall|i: int| 0 <= i < dirs.len() implies all.contains(#[trigger] dirs[i]) by {
        assert(has_dir(all, file_dir(files[i])));
        let k = choose|k: int|
            0 <= k < all.len() && path::components(#[trigger] all[k]) == path::components(dirs[i]);
        assert(dirs.contains(all[k]));
        let j = choose|j: int| 0 <= j < dirs.len() && dirs[j] == all[k];
        path::lemma_ordinary_path(dirs[i]);
        path::lemma_ordinary_path(dirs[j]);
    }
    assert forall|dir: Seq<char>| #[trigger] points.contains(dir) <==> dirs.contains(dir)
        && !exists|j: int|
        0 <= j < dirs.len() && (#[trigger] dirs[j] + seq!['/']).is_prefix_of(dir) by {
        if all.contains(dir) {
            let k = choose|k: int| 0 <= k < all.len() && all[k] == dir;
            assert(dirs.contains(all[k]));
        }
        if dirs.contains(dir) {
            let i = choose|i: int| 0 <= i < dirs.len() && dirs[i] == dir;
            assert(all.contains(dirs[i]));
            lemma_nested_behind(dir, all, dirs);
        }
    }
}

/// A directory lies below another of a list exactly when it stands behind one
/// of them and a separator.
proof fn lemma_nested_behind(dir: Seq<char>, all: Seq<Seq<char>>, dirs: Seq<Seq<char>>)
    requires
        dirs.contains(dir),
        forall|i: int| 0 <= i < dirs.len() ==> path::ordinary_path(#[trigger] dirs[i]),
        forall|k: int| 0 <= k < all.len() ==> dirs.contains(#[trigger] all[k]),
        forall|i: int| 0 <= i < dirs.len() ==> all.contains(#[trigger] dirs[i]),
    ensures
        nested(dir, all) <==> exists|j: int|
            0 <= j < dirs.len() && (#[trigger] dirs[j] + seq!['/']).is_prefix_of(dir),
{
    let i = choose|i: int| 0 <= i < dirs.len() && dirs[i] == dir;
    path::lemma_ordinary_path(dirs[i]);
    if nested(dir, all) {
        let k = choose|k: int|
            0 <= k < all.len() && path::components(#[trigger] all[k]) != path::components(dir)
                && path::lies_under(dir, all[k]);
        assert(dirs.contains(all[k]));
        let j = choose|j: int| 0 <= j < dirs.len() && dirs[j] == all[k];
        path::law_stripping_leaves_what_stands_behind(dirs[j], dir);
        assert((dirs[j] + seq!['/']).is_prefix_of(dir));
    }
    if exists|j: int|
        0 <= j < dirs.len() && (#[trigger] dirs[j] + seq!['/']).is_prefix_of(dir) {
        let j = choose|j: int|
            0 <= j < dirs.len() && (#[trigger] dirs[j] + seq!['/']).is_prefix_of(dir);
        path::law_stripping_leaves_what_stands_behind(dirs[j], dir);
        path::lemma_ordinary_path(dirs[j]);
        assert((dirs[j] + seq!['/']).len() > dirs[j].len());
        assert(dirs[j] != dir);
        if path::components(dirs[j]) == path::components(dir) {
            assert(dirs[j] == dir);
        }
        assert(all.contains(dirs[j]));
        let k = choose|k: int| 0 <= k < all.len() && all[k] == dirs[j];
        assert(path::components(all[k]) != path::components(dir));
        assert(nested(dir, all));
    }
}

/// A mount point is shown as the absolute path of its name, its material lies
/// below the fragment that it belongs to, and its flag binds the one to the
/// other, read-only and relabelled. A reference to take the material from is
/// one more option of the flag and changes nothing else about it.
pub proof fn law_mount_flag_binds_source_to_target(
    point: Seq<char>,
    image_ref: Seq<char>,
    source: Seq<char>,
    fragment: Seq<char>,
)
    ensures
        target_text(point) == seq!['/'] + point,
        context_source_text(fragment, point) == "fragments/"@ + fragment + "/mount/"@ + point,
        flag_text(point, None, source) == "--mount=type=bind"@ + ",source="@ + source
            + ",target=/"@ + point + ",ro,z"@,
        flag_text(point, Some(image_ref), source) == "--mount=type=bind"@ + (",from="@ + image_ref)
            + ",source="@ + source + ",target=/"@ + point + ",ro,z"@,
{
    reveal_strlit("/");
    reveal_strlit(",source=");
    reveal_strlit(",from=");
    reveal_strlit(",target=");
    reveal_strlit(",target=/");
    reveal_strlit("--mount=type=bind");
    reveal_strlit("--mount=type=bind,source=");
    reveal_strlit("--mount=type=bind,from=");
    assert("/"@ =~= seq!['/']);
    assert("--mount=type=bind,source="@ =~= "--mount=type=bind"@ + ",source="@);
    assert("--mount=type=bind,from="@ =~= "--mount=type=bind"@ + ",from="@);
    assert(",target=/"@ =~= ",target="@ + "/"@);
    assert(flag_text(point, None, source) =~= "--mount=type=bind"@ + ",source="@ + source
        + ",target=/"@ + point + ",ro,z"@);
    assert(flag_text(point, Some(image_ref), source) =~= "--mount=type=bind"@ + (",from="@
        + image_ref) + ",source="@ + source + ",target=/"@ + point + ",ro,z"@);
}

/// A mount hides a path exactly when the path is the mount's target or stands
/// behind it and a separator. Two mounts collide exactly when one of them
/// hides the other's target.
pub proof fn law_mount_hides_what_stands_behind_it(point: Seq<char>, other: Seq<char>)
    requires
        path::ordinary_path(point),
        path::ordinary_path(other),
    ensures
        hides(point, seq!['/'] + other) <==> other == point || (point + seq!['/']).is_prefix_of(
            other,
        ),
        hides(point, other) <==> hides(point, seq!['/'] + other),
        paths_overlap(point, other) <==> hides(point, other) || hides(other, point),
{
    path::law_stripping_leaves_what_stands_behind(point, other);
    path::law_stripping_leaves_what_stands_behind(other, point);
    path::lemma_ordinary_path(point);
    path::lemma_ordinary_path(other);
    let absolute = seq!['/'] + other;
    text::law_leading_characters_are_dropped(absolute, '/');
    let bare = text::without_leading(absolute, '/');
    assert(bare =~= other) by {
        let n = absolute.len() - bare.len();
        if n == 0 {
            assert(bare =~= absolute);
        } else if n > 1 {
            assert(absolute[1] == '/');
            assert(absolute[1] == other[0]);
        } else {
            assert(absolute.skip(1) =~= other);
        }
    }
    assert(text::without_leading(other, '/') == other);
    assert(text::without_leading(point, '/') == point);
}

/// A mounts annotation draws a warning exactly when it names another number
/// of mount points than the layers derive, or another one at some place. The
/// warning names the fragment and all the targets of both.
pub proof fn law_drift_is_any_difference(
    fragment_name: Seq<char>,
    annotated: Seq<Seq<char>>,
    derived: Seq<Seq<char>>,
)
    ensures
        drift(fragment_name, annotated, derived) is None <==> annotated.len() == derived.len()
            && forall|i: int|
            0 <= i < annotated.len() ==> path::components(#[trigger] annotated[i])
                == path::components(derived[i]),
        ({
            let listed = |points: Seq<Seq<char>>|
                if points.len() == 0 {
                    "(none)"@
                } else {
                    Seq::new(
                        points.len(),
                        |k: int|
                            if k == 0 {
                                seq!['/'] + points[k]
                            } else {
                                ", "@ + (seq!['/'] + points[k])
                            },
                    ).flatten()
                };
            drift(fragment_name, annotated, derived) matches Some(warning) ==> warning
                == "warning: fragment '"@ + fragment_name
                + "' annotates mount targets that do not match its layers. Annotated: "@ + listed(
                annotated,
            ) + ". Derived from the layer: "@ + listed(derived)
                + ". The layer is authoritative and generation uses the derived targets. Rebuild the fragment with a corrected "@
                + "com.github.marrusl.osfragment.mounts"@
                + " annotation so metadata-only reads agree with it."@
        }),
{
    lemma_target_list(annotated);
    lemma_target_list(derived);
}

proof fn lemma_target_list(points: Seq<Seq<char>>)
    ensures
        target_list_text(points) == if points.len() == 0 {
            "(none)"@
        } else {
            Seq::new(
                points.len(),
                |k: int|
                    if k == 0 {
                        seq!['/'] + points[k]
                    } else {
                        ", "@ + (seq!['/'] + points[k])
                    },
            ).flatten()
        },
{
    let marks = target_texts(points);
    text::law_joining_keeps_every_part(marks, ", "@);
    reveal_strlit("/");
    assert("/"@ =~= seq!['/']);
    assert(Seq::new(
        marks.len(),
        |k: int|
            if k == 0 {
                marks[k]
            } else {
                ", "@ + marks[k]
            },
    ) =~= Seq::new(
        points.len(),
        |k: int|
            if k == 0 {
                seq!['/'] + points[k]
            } else {
                ", "@ + (seq!['/'] + points[k])
            },
    ));
}

/// A refusal shows what was refused: an annotated target with its unprintable
/// characters escaped, and a misplaced mount file with its fragment, told apart
/// by whether it may lie outside `mount/` or lies directly under it.
pub proof fn law_refusals_show_what_was_refused(
    fragment: Seq<char>,
    file: Seq<char>,
    escaped: Seq<char>,
)
    ensures
        unusable_target_text(escaped) == "mount target '"@ + escaped
            + "' is not usable: a target must be an absolute path of ordinary components, for example /etc/pki/entitlement"@,
        strays(file) ==> misplaced_text(fragment, file) == "fragment '"@ + fragment + "': mount/"@
            + file
            + " does not lie below mount/. A mount point is derived from the directory that directly contains a file, and it must be a relative path of ordinary components. Move the file to the path it should appear at during the build, for example mount/etc/pki/entitlement/cert.pem."@,
        !strays(file) ==> ("fragment '"@ + fragment + "': mount/"@ + file
            + " is a regular file directly under mount/, which would derive a bind mount onto /."@).is_prefix_of(
        misplaced_text(fragment, file)),
        !strays(file) ==> (file + "."@).is_suffix_of(misplaced_text(fragment, file)),
{
    if !strays(file) {
        let all = misplaced_text(fragment, file);
        reveal_strlit(" is a regular file directly under mount/, which would derive a bind mount onto /. A mount point is derived from the directory that directly contains a file, so a file at the top of mount/ would mount the filesystem root and every other mount point would be pruned as nested inside it. Move it to the path it should appear at during the build, for example mount/etc/pki/entitlement/");
        reveal_strlit(" is a regular file directly under mount/, which would derive a bind mount onto /.");
        let head = "fragment '"@ + fragment + "': mount/"@ + file
            + " is a regular file directly under mount/, which would derive a bind mount onto /."@;
        assert(head =~= all.subrange(0, head.len() as int));
        let tail = file + "."@;
        assert(tail =~= all.subrange(all.len() - tail.len(), all.len() as int));
    }
}

} // verus!
