//! Restricting a fragment's materialized mount material to its owner.

use vstd::prelude::*;

use crate::loader;
use crate::oci;
use crate::path;
use crate::path::join_path;
use crate::self_contained::{MOUNT_DIR_MODE, MOUNT_FILE_MODE};
use crate::text;

verus! {

/// An entry of a directory.
#[derive(Debug, Clone)]
pub struct DirEntry {
    pub name: String,
    pub is_dir: bool,
}

/// What reading the entries of a directory one after the other gave.
#[derive(Debug, Clone)]
pub struct DirListing {
    /// The entries that were read.
    pub entries: Vec<DirEntry>,
    /// Why the next one could not be read, unless these are all.
    pub failure: Option<String>,
}

/// The path of an entry of a directory.
pub open spec fn entry_path(dir: Seq<char>, name: Seq<char>) -> Seq<char> {
    dir + "/"@ + name
}

/// A mode to set.
#[derive(Debug, Clone)]
struct ModeChange {
    path: String,
    mode: u32,
}

/// Paths and modes of a list of changes.
spec fn change_views(changes: Seq<ModeChange>) -> Seq<(Seq<char>, u32)> {
    changes.map_values(|c: ModeChange| (c.path@, c.mode))
}

/// The files of a directory, each with the mode it gets.
pub open spec fn file_changes(dir: Seq<char>, entries: Seq<DirEntry>) -> Seq<(Seq<char>, u32)>
    decreases entries.len(),
{
    if entries.len() == 0 {
        Seq::empty()
    } else if entries.last().is_dir {
        file_changes(dir, entries.drop_last())
    } else {
        file_changes(dir, entries.drop_last()).push(
            (entry_path(dir, entries.last().name@), MOUNT_FILE_MODE),
        )
    }
}

/// The modes that are set for one directory, in order: those of the files that
/// were read of it, and then, if that is all there is, its own.
pub open spec fn dir_changes(dir: Seq<char>, listing: DirListing) -> Seq<(Seq<char>, u32)> {
    let files = file_changes(dir, listing.entries@);
    if listing.failure is None {
        files.push((dir, MOUNT_DIR_MODE))
    } else {
        files
    }
}

/// The directories in a directory.
pub open spec fn subdirectories(dir: Seq<char>, entries: Seq<DirEntry>) -> Seq<Seq<char>>
    decreases entries.len(),
{
    if entries.len() == 0 {
        Seq::empty()
    } else if entries.last().is_dir {
        subdirectories(dir, entries.drop_last()).push(entry_path(dir, entries.last().name@))
    } else {
        subdirectories(dir, entries.drop_last())
    }
}

/// Every file of a directory is among its changes, and every directory in it
/// among its subdirectories.
proof fn lemma_entry_found(dir: Seq<char>, entries: Seq<DirEntry>, i: int)
    requires
        0 <= i < entries.len(),
    ensures
        entries[i].is_dir ==> subdirectories(dir, entries).contains(
            entry_path(dir, entries[i].name@),
        ),
        !entries[i].is_dir ==> file_changes(dir, entries).contains(
            (entry_path(dir, entries[i].name@), MOUNT_FILE_MODE),
        ),
    decreases entries.len(),
{
    let front = entries.drop_last();
    let dirs = subdirectories(dir, front);
    let files = file_changes(dir, front);
    let p = entry_path(dir, entries[i].name@);
    if i < front.len() {
        lemma_entry_found(dir, front, i);
        assert(front[i] == entries[i]);
        if entries[i].is_dir {
            let k = choose|k: int| 0 <= k < dirs.len() && dirs[k] == p;
            assert(subdirectories(dir, entries)[k] == p);
        } else {
            let k = choose|k: int| 0 <= k < files.len() && files[k] == (p, MOUNT_FILE_MODE);
            assert(file_changes(dir, entries)[k] == (p, MOUNT_FILE_MODE));
        }
    } else if entries[i].is_dir {
        assert(subdirectories(dir, entries)[dirs.len() as int] == p);
    } else {
        assert(file_changes(dir, entries)[files.len() as int] == (p, MOUNT_FILE_MODE));
    }
}

/// `p` is the path of a directory among the entries of `dir`.
spec fn names_dir(dir: Seq<char>, entries: Seq<DirEntry>, p: Seq<char>) -> bool {
    exists|i: int|
        0 <= i < entries.len() && (#[trigger] entries[i]).is_dir && p == entry_path(
            dir,
            entries[i].name@,
        )
}

/// Every subdirectory comes from an entry.
proof fn lemma_subdirectory(dir: Seq<char>, entries: Seq<DirEntry>, k: int)
    requires
        0 <= k < subdirectories(dir, entries).len(),
    ensures
        names_dir(dir, entries, subdirectories(dir, entries)[k]),
    decreases entries.len(),
{
    let front = entries.drop_last();
    let p = subdirectories(dir, entries)[k];
    if k < subdirectories(dir, front).len() {
        lemma_subdirectory(dir, front, k);
        let i = choose|i: int|
            0 <= i < front.len() && (#[trigger] front[i]).is_dir && p == entry_path(
                dir,
                front[i].name@,
            );
        assert(entries[i] == front[i]);
    } else {
        assert(entries[entries.len() - 1].is_dir);
    }
}

/// `answer` is what `set_mode` may answer for a change.
pub open spec fn mode_answers<M: Fn(&str, u32) -> Result<(), String>>(
    set_mode: M,
    change: (Seq<char>, u32),
    answer: Result<(), String>,
) -> bool {
    exists|p: &str, mode: u32|
        p@ == change.0 && mode == change.1 && #[trigger] call_ensures(set_mode, (p, mode), answer)
}

/// What was done about a directory and those below it.
pub struct DirVisit {
    /// The directory.
    pub dir: Seq<char>,
    /// What listing it gave.
    pub listing: Result<DirListing, String>,
    /// What setting modes gave, in order, up to the first failure.
    pub modes: Seq<Result<(), String>>,
    /// What was done about the directories in it, the last of the listing
    /// first, up to the first failure.
    pub below: Seq<DirVisit>,
}

/// Setting a mode of the directory failed.
pub open spec fn mode_failed(v: DirVisit) -> bool {
    v.modes.len() > 0 && v.modes.last() is Err
}

/// The directory was read to its end, and every mode was set.
pub open spec fn all_set(v: DirVisit) -> bool {
    &&& v.listing matches Ok(listing)
    &&& listing.failure is None
    &&& v.modes.len() == dir_changes(v.dir, listing).len()
    &&& !mode_failed(v)
}

/// Why a visit ended early, if it did.
pub open spec fn visit_failure(v: DirVisit) -> Option<Seq<char>>
    decreases v,
{
    match v.listing {
        Err(e) => Some("reading "@ + v.dir + ": "@ + e@),
        Ok(listing) => if mode_failed(v) {
            Some(
                "restricting permissions on "@ + dir_changes(v.dir, listing)[v.modes.len() - 1].0
                    + ": "@ + v.modes.last()->Err_0@,
            )
        } else if listing.failure is Some {
            text::opt_text(listing.failure)
        } else if v.below.len() > 0 {
            visit_failure(v.below.last())
        } else {
            None
        },
    }
}

/// The visit is one that `list` and `set_mode` may answer: the directory is
/// listed, the modes of its files and then its own are set, and then the
/// directories in it are visited, up to the first failure. Where an entry
/// cannot be read, the modes of the files before it are set all the same.
pub open spec fn visited<
    L: Fn(&str) -> Result<DirListing, String>,
    M: Fn(&str, u32) -> Result<(), String>,
>(list: L, set_mode: M, v: DirVisit) -> bool
    decreases v,
{
    &&& oci::answers(list, v.dir, v.listing)
    &&& match v.listing {
        Err(_) => v.modes.len() == 0 && v.below.len() == 0,
        Ok(listing) => {
            let changes = dir_changes(v.dir, listing);
            let dirs = subdirectories(v.dir, listing.entries@);
            &&& v.modes.len() <= changes.len()
            &&& forall|i: int|
                0 <= i < v.modes.len() ==> mode_answers(set_mode, changes[i], #[trigger] v.modes[i])
            &&& forall|i: int| 0 <= i < v.modes.len() - 1 ==> (#[trigger] v.modes[i]) is Ok
            &&& if all_set(v) {
                &&& v.below.len() <= dirs.len()
                &&& forall|i: int|
                    0 <= i < v.below.len() ==> (#[trigger] v.below[i]).dir == dirs[dirs.len() - 1
                        - i]
                &&& forall|i: int|
                    0 <= i < v.below.len() ==> visited(list, set_mode, #[trigger] v.below[i])
                &&& forall|i: int|
                    0 <= i < v.below.len() - 1 ==> visit_failure(#[trigger] v.below[i]) is None
                &&& v.below.len() == dirs.len() || (v.below.len() > 0 && visit_failure(
                    v.below.last(),
                ) is Some)
            } else {
                &&& mode_failed(v) || v.modes.len() == changes.len()
                &&& v.below.len() == 0
            }
        },
    }
}

/// The directory that a list of names leads to from `root`.
pub open spec fn dir_at(root: Seq<char>, names: Seq<Seq<char>>) -> Seq<char>
    decreases names.len(),
{
    if names.len() == 0 {
        root
    } else {
        entry_path(dir_at(root, names.drop_last()), names.last())
    }
}

/// The listing has a directory of that name.
pub open spec fn lists_dir(entries: Seq<DirEntry>, name: Seq<char>) -> bool {
    exists|i: int| 0 <= i < entries.len() && (#[trigger] entries[i]).is_dir && entries[i].name@ == name
}

/// Listings lead from `root` to the directory behind a list of names.
pub open spec fn reached<L: Fn(&str) -> Result<DirListing, String>>(
    list: L,
    root: Seq<char>,
    names: Seq<Seq<char>>,
) -> bool
    decreases names.len(),
{
    names.len() == 0 || {
        &&& reached(list, root, names.drop_last())
        &&& exists|listing: DirListing|
            {
                &&& #[trigger] oci::answers(list, dir_at(root, names.drop_last()), Ok(listing))
                &&& listing.failure is None
                &&& lists_dir(listing.entries@, names.last())
            }
    }
}

/// The directory lies at `root`, or listings lead to it from there.
pub open spec fn may_list<L: Fn(&str) -> Result<DirListing, String>>(
    list: L,
    root: Seq<char>,
    dir: Seq<char>,
) -> bool {
    exists|names: Seq<Seq<char>>| #[trigger] reached(list, root, names) && dir == dir_at(root, names)
}

/// The change is one of those of a directory that lies at `root` or that
/// listings lead to from there.
pub open spec fn may_set<L: Fn(&str) -> Result<DirListing, String>>(
    list: L,
    root: Seq<char>,
    change: (Seq<char>, u32),
) -> bool {
    exists|names: Seq<Seq<char>>, listing: DirListing|
        {
            &&& #[trigger] reached(list, root, names)
            &&& #[trigger] oci::answers(list, dir_at(root, names), Ok(listing))
            &&& dir_changes(dir_at(root, names), listing).contains(change)
        }
}

/// Only the directories of the tree at `root` are listed, and only modes in it
/// are set.
pub open spec fn confined<
    L: Fn(&str) -> Result<DirListing, String>,
    M: Fn(&str, u32) -> Result<(), String>,
>(list: L, set_mode: M, root: Seq<char>) -> bool {
    &&& forall|p: &str| may_list(list, root, p@) ==> #[trigger] call_requires(list, (p,))
    &&& forall|p: &str, mode: u32|
        may_set(list, root, (p@, mode)) ==> #[trigger] call_requires(set_mode, (p, mode))
}

/// The path of an entry of a directory.
fn path_of(dir: &str, name: &str) -> (out: String)
    ensures
        out@ == entry_path(dir@, name@),
{
    let mut out = dir.to_owned();
    out.append("/");
    out.append(name);
    out
}

/// The modes to set for one directory, in order, and the directories in it.
fn plan_dir(dir: &str, listing: &DirListing) -> (r: (Vec<ModeChange>, Vec<String>))
    ensures
        change_views(r.0@) == dir_changes(dir@, *listing),
        text::texts(r.1@) == subdirectories(dir@, listing.entries@),
{
    let entries = &listing.entries;
    let mut changes: Vec<ModeChange> = Vec::new();
    let mut below: Vec<String> = Vec::new();
    assert(change_views(changes@) =~= file_changes(dir@, entries@.take(0)));
    assert(text::texts(below@) =~= subdirectories(dir@, entries@.take(0)));
    for i in 0..entries.len()
        invariant
            change_views(changes@) == file_changes(dir@, entries@.take(i as int)),
            text::texts(below@) == subdirectories(dir@, entries@.take(i as int)),
    {
        let ghost changed = change_views(changes@);
        let ghost dirs = text::texts(below@);
        assert(entries@.take(i + 1).drop_last() =~= entries@.take(i as int));
        let path = path_of(dir, entries[i].name.as_str());
        let ghost p = path@;
        if entries[i].is_dir {
            below.push(path);
            assert(text::texts(below@) =~= dirs.push(p));
        } else {
            changes.push(ModeChange { path, mode: MOUNT_FILE_MODE });
            assert(change_views(changes@) =~= changed.push((p, MOUNT_FILE_MODE)));
        }
    }
    assert(entries@.take(entries@.len() as int) =~= entries@);
    if listing.failure.is_none() {
        let ghost changed = change_views(changes@);
        changes.push(ModeChange { path: dir.to_owned(), mode: MOUNT_DIR_MODE });
        assert(change_views(changes@) =~= changed.push((dir@, MOUNT_DIR_MODE)));
    }
    (changes, below)
}

/// Restricts a directory and everything below it. `names` lead to it from
/// `root`.
fn restrict_dir<
    L: Fn(&str) -> Result<DirListing, String>,
    M: Fn(&str, u32) -> Result<(), String>,
>(
    dir: &str,
    list: &L,
    set_mode: &M,
    Ghost(root): Ghost<Seq<char>>,
    Ghost(names): Ghost<Seq<Seq<char>>>,
) -> (r: Result<(), String>)
    requires
        confined(*list, *set_mode, root),
        reached(*list, root, names),
        dir@ == dir_at(root, names),
    ensures
        exists|v: DirVisit|
            #![trigger visited(*list, *set_mode, v)]
            visited(*list, *set_mode, v) && v.dir == dir@ && visit_failure(v)
                == loader::failure_of(r),
    decreases usize::MAX - dir@.len(),
{
    assert(may_list(*list, root, dir@));
    let answer = list(dir);
    let ghost listed = answer;
    assert(oci::answers(*list, dir@, listed));
    let listing = match answer {
        Ok(listing) => listing,
        Err(e) => {
            let mut out = "reading ".to_owned();
            out.append(dir);
            out.append(": ");
            out.append(e.as_str());
            proof {
                let v = DirVisit {
                    dir: dir@,
                    listing: listed,
                    modes: Seq::empty(),
                    below: Seq::empty(),
                };
                assert(visited(*list, *set_mode, v));
            }
            return Err(out);
        },
    };
    let (changes, below) = plan_dir(dir, &listing);
    let ghost entries = listing.entries;
    let ghost wanted = dir_changes(dir@, listing);
    let ghost dirs = subdirectories(dir@, entries@);
    let ghost mut modes: Seq<Result<(), String>> = Seq::empty();
    for i in 0..changes.len()
        invariant
            confined(*list, *set_mode, root),
            reached(*list, root, names),
            dir@ == dir_at(root, names),
            listed == Ok::<DirListing, String>(listing),
            oci::answers(*list, dir@, listed),
            wanted == dir_changes(dir@, listing),
            change_views(changes@) == wanted,
            modes.len() == i,
            forall|j: int|
                0 <= j < i ==> mode_answers(*set_mode, wanted[j], #[trigger] modes[j]),
            forall|j: int| 0 <= j < i ==> (#[trigger] modes[j]) is Ok,
    {
        let path = changes[i].path.as_str();
        let mode = changes[i].mode;
        assert(wanted[i as int] == (path@, mode)) by {
            assert(change_views(changes@)[i as int] == (path@, mode));
        }
        assert(wanted.contains((path@, mode)));
        assert(may_set(*list, root, (path@, mode)));
        let answer = set_mode(path, mode);
        let ghost answered = answer;
        assert(call_ensures(*set_mode, (path, mode), answered));
        assert(mode_answers(*set_mode, (path@, mode), answered));
        let ghost before = modes;
        proof {
            modes = modes.push(answered);
        }
        if let Err(e) = answer {
            let mut out = "restricting permissions on ".to_owned();
            out.append(path);
            out.append(": ");
            out.append(e.as_str());
            proof {
                let v = DirVisit { dir: dir@, listing: listed, modes, below: Seq::empty() };
                assert forall|j: int| 0 <= j < modes.len() - 1 implies (#[trigger] modes[j])
                    is Ok by {
                    assert(modes[j] == before[j]);
                }
                assert(modes.last() == answered);
                assert(visited(*list, *set_mode, v));
            }
            return Err(out);
        }
    }
    if let Some(e) = &listing.failure {
        proof {
            let v = DirVisit { dir: dir@, listing: listed, modes, below: Seq::empty() };
            assert(!mode_failed(v));
            assert(visited(*list, *set_mode, v));
        }
        return Err(e.clone());
    }
    let ghost mut visits: Seq<DirVisit> = Seq::empty();
    let count = below.len();
    for k in 0..count
        invariant
            count == below.len(),
            confined(*list, *set_mode, root),
            reached(*list, root, names),
            dir@ == dir_at(root, names),
            listed == Ok::<DirListing, String>(listing),
            oci::answers(*list, dir@, listed),
            wanted == dir_changes(dir@, listing),
            listing.failure is None,
            entries == listing.entries,
            dirs == subdirectories(dir@, entries@),
            text::texts(below@) == dirs,
            modes.len() == wanted.len(),
            forall|j: int|
                0 <= j < modes.len() ==> mode_answers(*set_mode, wanted[j], #[trigger] modes[j]),
            forall|j: int| 0 <= j < modes.len() ==> (#[trigger] modes[j]) is Ok,
            visits.len() == k,
            forall|j: int|
                0 <= j < k ==> (#[trigger] visits[j]).dir == dirs[dirs.len() - 1 - j],
            forall|j: int| 0 <= j < k ==> visited(*list, *set_mode, #[trigger] visits[j]),
            forall|j: int| 0 <= j < k ==> visit_failure(#[trigger] visits[j]) is None,
        decreases count - k,
    {
        let at: usize = count - 1 - k;
        let sub = below[at].as_str();
        let length: usize = sub.unicode_len();
        let ghost name: Seq<char>;
        proof {
            assert(dirs[at as int] == sub@);
            lemma_subdirectory(dir@, entries@, at as int);
            let i = choose|i: int|
                0 <= i < entries@.len() && (#[trigger] entries@[i]).is_dir && dirs[at as int]
                    == entry_path(dir@, entries@[i].name@);
            name = entries@[i].name@;
            reveal_strlit("/");
            assert(sub@.len() == dir@.len() + 1 + name.len());
            assert(lists_dir(entries@, name));
            let longer = names.push(name);
            assert(longer.drop_last() =~= names);
            assert(oci::answers(*list, dir_at(root, names), Ok(listing)));
            assert(reached(*list, root, longer));
            assert(dir_at(root, longer) == sub@);
        }
        let r = restrict_dir(sub, list, set_mode, Ghost(root), Ghost(names.push(name)));
        let ghost visit = choose|v: DirVisit|
            #![trigger visited(*list, *set_mode, v)]
            visited(*list, *set_mode, v) && v.dir == sub@ && visit_failure(v)
                == loader::failure_of(r);
        let ghost before = visits;
        proof {
            visits = visits.push(visit);
            assert(visits.last() == visit);
        }
        if let Err(e) = r {
            proof {
                let v = DirVisit { dir: dir@, listing: listed, modes, below: visits };
                assert(all_set(v));
                assert forall|j: int| 0 <= j < visits.len() - 1 implies visit_failure(
                    #[trigger] visits[j],
                ) is None by {
                    assert(visits[j] == before[j]);
                }
                assert(visited(*list, *set_mode, v));
            }
            return Err(e);
        }
    }
    proof {
        let v = DirVisit { dir: dir@, listing: listed, modes, below: visits };
        assert(all_set(v));
        if visits.len() > 0 {
            assert(visit_failure(visits[visits.len() - 1]) is None);
        }
        assert(visited(*list, *set_mode, v));
        assert(visit_failure(v) is None);
    }
    Ok(())
}

/// Where a fragment's mount material lies in the directory that the fragment
/// was materialized to.
pub open spec fn mount_root(fragment_dir: Seq<char>) -> Seq<char> {
    path::path_join(fragment_dir, "mount"@)
}

/// Sets every directory in `<fragment_dir>/mount` to [`MOUNT_DIR_MODE`] and
/// every other entry in it to [`MOUNT_FILE_MODE`]. Nothing is listed and no
/// mode is set when the fragment carries no mount material.
///
/// Each directory is read, and the modes of its files are set, before the
/// directory itself is restricted, so tightening a parent never blocks the
/// walk into its children or the change of the files inside it. A 0700
/// directory only blocks live traversal; the sibling archive records each
/// file's own mode independently, so leaving files at whatever the fragment's
/// layer carried would still expose credential material once extracted
/// elsewhere.
///
/// `is_dir` says whether a path is a directory, `list` lists one, and
/// `set_mode` sets a mode. An entry that cannot be read ends the walk with its
/// message, once the files before it are restricted. No call reaches outside `<fragment_dir>/mount`.
pub fn restrict_mount_tree<
    D: Fn(&str) -> bool,
    L: Fn(&str) -> Result<DirListing, String>,
    M: Fn(&str, u32) -> Result<(), String>,
>(fragment_dir: &str, is_dir: D, list: L, set_mode: M) -> (r: Result<(), String>)
    requires
        forall|p: &str|
            p@ == mount_root(fragment_dir@) ==> #[trigger] call_requires(is_dir, (p,)),
        oci::answers(is_dir, mount_root(fragment_dir@), true) ==> confined(
            list,
            set_mode,
            mount_root(fragment_dir@),
        ),
    ensures
        exists|present: bool|
            {
                &&& #[trigger] oci::answers(is_dir, mount_root(fragment_dir@), present)
                &&& if present {
                    exists|v: DirVisit|
                        #![trigger visited(list, set_mode, v)]
                        visited(list, set_mode, v) && v.dir == mount_root(fragment_dir@)
                            && visit_failure(v) == loader::failure_of(r)
                } else {
                    r is Ok
                }
            },
{
    let root = join_path(fragment_dir, "mount");
    let present = is_dir(root.as_str());
    assert(oci::answers(is_dir, mount_root(fragment_dir@), present));
    if !present {
        return Ok(());
    }
    let ghost names = Seq::<Seq<char>>::empty();
    assert(reached(list, root@, names));
    assert(dir_at(root@, names) == root@);
    restrict_dir(root.as_str(), &list, &set_mode, Ghost(root@), Ghost(names))
}

/// `w` is among what was done in the course of `v`.
pub open spec fn holds_visit(v: DirVisit, w: DirVisit) -> bool
    decreases v,
{
    w == v || exists|i: int| 0 <= i < v.below.len() && holds_visit(#[trigger] v.below[i], w)
}

/// Where the restriction of a tree succeeds, every directory that it reached
/// got the directory mode, every file in such a directory the file mode, and
/// every directory in it was reached too.
pub proof fn law_restriction_covers_the_tree<
    L: Fn(&str) -> Result<DirListing, String>,
    M: Fn(&str, u32) -> Result<(), String>,
>(list: L, set_mode: M, v: DirVisit, w: DirVisit)
    requires
        visited(list, set_mode, v),
        visit_failure(v) is None,
        holds_visit(v, w),
    ensures
        w.listing matches Ok(listing) && {
            let entries = listing.entries;
            &&& oci::answers(list, w.dir, Ok(listing))
            &&& listing.failure is None
            &&& mode_answers(set_mode, (w.dir, MOUNT_DIR_MODE), Ok(()))
            &&& forall|i: int|
                0 <= i < entries@.len() ==> if (#[trigger] entries@[i]).is_dir {
                    exists|k: int|
                        {
                            &&& 0 <= k < w.below.len()
                            &&& (#[trigger] w.below[k]).dir == entry_path(w.dir, entries@[i].name@)
                            &&& holds_visit(v, w.below[k])
                        }
                } else {
                    mode_answers(
                        set_mode,
                        (entry_path(w.dir, entries@[i].name@), MOUNT_FILE_MODE),
                        Ok(()),
                    )
                }
        },
    decreases v,
{
    if w == v {
        let listing = v.listing->Ok_0;
        let entries = listing.entries;
        let changes = dir_changes(v.dir, listing);
        let files = file_changes(v.dir, entries@);
        let dirs = subdirectories(v.dir, entries@);
        assert(all_set(v));
        assert forall|i: int| 0 <= i < v.modes.len() implies #[trigger] v.modes[i] == Ok::<
            (),
            String,
        >(()) by {
            let unit = v.modes[i]->Ok_0;
            assert(unit == ());
        }
        assert(mode_answers(set_mode, changes[files.len() as int], v.modes[files.len() as int]));
        assert(v.below.len() == dirs.len());
        assert forall|i: int| 0 <= i < entries@.len() implies if (#[trigger] entries@[i]).is_dir {
            exists|k: int|
                {
                    &&& 0 <= k < w.below.len()
                    &&& (#[trigger] w.below[k]).dir == entry_path(w.dir, entries@[i].name@)
                    &&& holds_visit(v, w.below[k])
                }
        } else {
            mode_answers(
                set_mode,
                (entry_path(w.dir, entries@[i].name@), MOUNT_FILE_MODE),
                Ok(()),
            )
        } by {
            lemma_entry_found(v.dir, entries@, i);
            let p = entry_path(v.dir, entries@[i].name@);
            if entries@[i].is_dir {
                let m = choose|m: int| 0 <= m < dirs.len() && dirs[m] == p;
                let k = dirs.len() - 1 - m;
                assert(v.below[k].dir == dirs[m]);
                assert(holds_visit(v.below[k], v.below[k]));
                assert(holds_visit(v, v.below[k]));
            } else {
                let k = choose|k: int| 0 <= k < files.len() && files[k] == (p, MOUNT_FILE_MODE);
                assert(changes[k] == files[k]);
                assert(mode_answers(set_mode, changes[k], v.modes[k]));
            }
        }
    } else {
        let i = choose|i: int| 0 <= i < v.below.len() && holds_visit(#[trigger] v.below[i], w);
        let inner = v.below[i];
        assert(all_set(v));
        assert(visit_failure(inner) is None) by {
            if i < v.below.len() - 1 {
                assert(visit_failure(v.below[i]) is None);
            }
        }
        law_restriction_covers_the_tree(list, set_mode, inner, w);
        let entries = w.listing->Ok_0.entries;
        assert forall|j: int|
            0 <= j < entries@.len() && (#[trigger] entries@[j]).is_dir implies exists|k: int|
            {
                &&& 0 <= k < w.below.len()
                &&& (#[trigger] w.below[k]).dir == entry_path(w.dir, entries@[j].name@)
                &&& holds_visit(v, w.below[k])
            } by {
            let k = choose|k: int|
                {
                    &&& 0 <= k < w.below.len()
                    &&& (#[trigger] w.below[k]).dir == entry_path(w.dir, entries@[j].name@)
                    &&& holds_visit(inner, w.below[k])
                };
            assert(holds_visit(v.below[i], w.below[k]));
            assert(holds_visit(v, w.below[k]));
        }
    }
}

/// The modes that are set for a directory are those of its files and its own,
/// and no others: every entry that is no directory gets 0600, once for each
/// time it is listed and in that order, and the directory itself gets 0700
/// behind them, unless an entry could not be read.
pub proof fn law_modes_of_a_directory(dir: Seq<char>, listing: DirListing)
    ensures
        dir_changes(dir, listing) == listing.entries@.filter(
            |e: DirEntry| !e.is_dir,
        ).map_values(|e: DirEntry| (dir + seq!['/'] + e.name@, 0o600u32)) + if listing.failure
            is None {
            seq![(dir, 0o700u32)]
        } else {
            Seq::empty()
        },
        subdirectories(dir, listing.entries@) == listing.entries@.filter(
            |e: DirEntry| e.is_dir,
        ).map_values(|e: DirEntry| dir + seq!['/'] + e.name@),
{
    lemma_modes(dir, listing.entries@);
    let files = file_changes(dir, listing.entries@);
    if listing.failure is None {
        assert(files.push((dir, MOUNT_DIR_MODE)) =~= files + seq![(dir, 0o700u32)]);
    } else {
        assert(files =~= files + Seq::empty());
    }
}

proof fn lemma_modes(dir: Seq<char>, entries: Seq<DirEntry>)
    ensures
        file_changes(dir, entries) == entries.filter(|e: DirEntry| !e.is_dir).map_values(
            |e: DirEntry| (dir + seq!['/'] + e.name@, 0o600u32),
        ),
        subdirectories(dir, entries) == entries.filter(|e: DirEntry| e.is_dir).map_values(
            |e: DirEntry| dir + seq!['/'] + e.name@,
        ),
    decreases entries.len(),
{
    let is_file = |e: DirEntry| !e.is_dir;
    let is_dir = |e: DirEntry| e.is_dir;
    let change = |e: DirEntry| (dir + seq!['/'] + e.name@, 0o600u32);
    let place = |e: DirEntry| dir + seq!['/'] + e.name@;
    reveal(Seq::filter);
    reveal_strlit("/");
    assert("/"@ =~= seq!['/']);
    if entries.len() > 0 {
        let front = entries.drop_last();
        let last = entries.last();
        lemma_modes(dir, front);
        if last.is_dir {
            assert(entries.filter(is_dir).map_values(place) =~= front.filter(is_dir).map_values(
                place,
            ).push(place(last)));
        } else {
            assert(entries.filter(is_file).map_values(change) =~= front.filter(is_file).map_values(
                change,
            ).push(change(last)));
        }
    } else {
        assert(entries.filter(is_file).map_values(change) =~= Seq::empty());
        assert(entries.filter(is_dir).map_values(place) =~= Seq::empty());
    }
}

/// A restriction that fails says why: a directory that could not be read, a
/// mode that could not be set, each with its path, or an entry that could not
/// be read. What failed is the last thing that was done.
pub proof fn law_failed_restriction_says_why<
    L: Fn(&str) -> Result<DirListing, String>,
    M: Fn(&str, u32) -> Result<(), String>,
>(list: L, set_mode: M, v: DirVisit)
    requires
        visited(list, set_mode, v),
        visit_failure(v) is Some,
    ensures
        exists|w: DirVisit|
            #[trigger] holds_visit(v, w) && {
                ||| (w.listing matches Err(e) && visit_failure(v) == Some(
                    "reading "@ + w.dir + ": "@ + e@,
                ))
                ||| exists|p: Seq<char>, mode: u32, e: String|
                    #[trigger] mode_answers(set_mode, (p, mode), Err::<(), String>(e))
                        && visit_failure(v) == Some(
                        "restricting permissions on "@ + p + ": "@ + e@,
                    )
                ||| (w.listing matches Ok(listing) && listing.failure matches Some(e)
                    && visit_failure(v) == Some(e@))
            },
    decreases v,
{
    assert(holds_visit(v, v));
    if let Ok(listing) = v.listing {
        if mode_failed(v) {
            let k = v.modes.len() - 1;
            let change = dir_changes(v.dir, listing)[k];
            let e = v.modes.last()->Err_0;
            assert(mode_answers(set_mode, change, v.modes[k]));
            assert(v.modes[k] == Err::<(), String>(e));
            assert(change == (change.0, change.1));
            assert(mode_answers(set_mode, (change.0, change.1), Err::<(), String>(e)));
        } else if listing.failure is None {
            let inner = v.below.last();
            let k = v.below.len() - 1;
            assert(v.below[k] == inner);
            assert(visited(list, set_mode, v.below[k]));
            law_failed_restriction_says_why(list, set_mode, inner);
            let w = choose|w: DirVisit|
                #[trigger] holds_visit(inner, w) && {
                    ||| (w.listing matches Err(e) && visit_failure(inner) == Some(
                        "reading "@ + w.dir + ": "@ + e@,
                    ))
                    ||| exists|p: Seq<char>, mode: u32, e: String|
                        #[trigger] mode_answers(set_mode, (p, mode), Err::<(), String>(e))
                            && visit_failure(inner) == Some(
                            "restricting permissions on "@ + p + ": "@ + e@,
                        )
                    ||| (w.listing matches Ok(listing) && listing.failure matches Some(e)
                        && visit_failure(inner) == Some(e@))
                };
            assert(holds_visit(v.below[k], w));
            assert(holds_visit(v, w));
        }
    }
}

} // verus!
