//! The rules that fragments must meet together before they are composed.

use vstd::prelude::*;

use crate::loader;
use crate::loader::{LoadedFragment, LoadedView};
use crate::manifest::Manifest;
use crate::mount;
use crate::mount::empty_mount_notice;
use crate::oci;
use crate::registry;
use crate::registry::split_image_ref;
use crate::text;
use crate::text::{contains_text, same_text};

verus! {

/// The names of a list of fragments.
pub open spec fn names_of(fragments: Seq<LoadedView>) -> Seq<Seq<char>> {
    fragments.map_values(|f: LoadedView| f.fragment.name)
}

/// The first name from place `i` on that came before.
pub open spec fn duplicate_from(names: Seq<Seq<char>>, i: int) -> Option<Seq<char>>
    decreases names.len() - i,
{
    if i >= names.len() {
        None
    } else if names.take(i).contains(names[i]) {
        Some(names[i])
    } else {
        duplicate_from(names, i + 1)
    }
}

/// What is said of fragments of which two have one name.
pub open spec fn duplicate_failure(names: Seq<Seq<char>>) -> Option<Seq<char>> {
    match duplicate_from(names, 0) {
        Some(name) => Some(
            "duplicate fragment name '"@ + name
                + "' \u{2014} each fragment must have a unique name"@,
        ),
        None => None,
    }
}

/// Whether one of the first `count` fragments has the given name.
fn has_name(fragments: &[LoadedFragment], count: usize, name: &str) -> (r: bool)
    requires
        count <= fragments@.len(),
    ensures
        r == names_of(loader::loaded_views(fragments@)).take(count as int).contains(name@),
{
    let ghost names = names_of(loader::loaded_views(fragments@));
    for i in 0..count
        invariant
            count <= fragments@.len(),
            names == names_of(loader::loaded_views(fragments@)),
            forall|j: int| 0 <= j < i ==> #[trigger] names[j] != name@,
    {
        assert(names[i as int] == fragments@[i as int].fragment.name@);
        if same_text(fragments[i].fragment.name.as_str(), name) {
            assert(names.take(count as int)[i as int] == name@);
            return true;
        }
    }
    proof {
        if names.take(count as int).contains(name@) {
            let j = choose|j: int| 0 <= j < count && names.take(count as int)[j] == name@;
            assert(names[j] == name@);
        }
    }
    false
}

/// Every fragment must have a name of its own.
pub fn check_duplicate_names(fragments: &[LoadedFragment]) -> (r: Result<(), String>)
    ensures
        loader::failure_of(r) == duplicate_failure(names_of(loader::loaded_views(fragments@))),
{
    let ghost names = names_of(loader::loaded_views(fragments@));
    for i in 0..fragments.len()
        invariant
            names == names_of(loader::loaded_views(fragments@)),
            duplicate_from(names, 0) == duplicate_from(names, i as int),
    {
        assert(names[i as int] == fragments@[i as int].fragment.name@);
        let name = fragments[i].fragment.name.as_str();
        if has_name(fragments, i, name) {
            let mut out = "duplicate fragment name '".to_owned();
            out.append(name);
            out.append("' \u{2014} each fragment must have a unique name");
            return Err(out);
        }
    }
    Ok(())
}

/// The names of a list of fragments, each with those it conflicts with.
pub open spec fn conflicts_of(fragments: Seq<LoadedView>) -> Seq<(Seq<char>, Seq<Seq<char>>)> {
    fragments.map_values(|f: LoadedView| (f.fragment.name, f.fragment.conflicts))
}

/// The first of the conflicts from place `j` on that is present.
pub open spec fn present_from(
    conflicts: Seq<Seq<char>>,
    names: Seq<Seq<char>>,
    j: int,
) -> Option<Seq<char>>
    decreases conflicts.len() - j,
{
    if j >= conflicts.len() {
        None
    } else if names.contains(conflicts[j]) {
        Some(conflicts[j])
    } else {
        present_from(conflicts, names, j + 1)
    }
}

/// The first fragment from place `i` on that conflicts with one that is
/// present, and the first such one.
pub open spec fn conflict_from(
    claims: Seq<(Seq<char>, Seq<Seq<char>>)>,
    names: Seq<Seq<char>>,
    i: int,
) -> Option<(Seq<char>, Seq<char>)>
    decreases claims.len() - i,
{
    if i >= claims.len() {
        None
    } else {
        match present_from(claims[i].1, names, 0) {
            Some(other) => Some((claims[i].0, other)),
            None => conflict_from(claims, names, i + 1),
        }
    }
}

/// What is said of fragments of which one declares a conflict with another.
pub open spec fn conflict_failure(
    claims: Seq<(Seq<char>, Seq<Seq<char>>)>,
    names: Seq<Seq<char>>,
) -> Option<Seq<char>> {
    match conflict_from(claims, names, 0) {
        Some((name, other)) => Some(
            "fragment '"@ + name + "' declares a conflict with '"@ + other
                + "', which is also in the manifest"@,
        ),
        None => None,
    }
}

/// The first of a fragment's conflicts that is present.
fn present_conflict<'a>(conflicts: &'a [String], fragments: &[LoadedFragment]) -> (r: Option<
    &'a str,
>)
    ensures
        match r {
            Some(other) => Some(other@),
            None => None,
        } == present_from(
            text::texts(conflicts@),
            names_of(loader::loaded_views(fragments@)),
            0,
        ),
{
    let ghost all = text::texts(conflicts@);
    let ghost names = names_of(loader::loaded_views(fragments@));
    for j in 0..conflicts.len()
        invariant
            all == text::texts(conflicts@),
            names == names_of(loader::loaded_views(fragments@)),
            present_from(all, names, 0) == present_from(all, names, j as int),
    {
        assert(all[j as int] == conflicts@[j as int]@);
        assert(names.take(fragments@.len() as int) =~= names);
        if has_name(fragments, fragments.len(), conflicts[j].as_str()) {
            return Some(conflicts[j].as_str());
        }
    }
    None
}

/// No fragment may declare a conflict with one that is present.
pub fn check_conflicts(fragments: &[LoadedFragment]) -> (r: Result<(), String>)
    ensures
        loader::failure_of(r) == conflict_failure(
            conflicts_of(loader::loaded_views(fragments@)),
            names_of(loader::loaded_views(fragments@)),
        ),
{
    let ghost claims = conflicts_of(loader::loaded_views(fragments@));
    let ghost names = names_of(loader::loaded_views(fragments@));
    for i in 0..fragments.len()
        invariant
            claims == conflicts_of(loader::loaded_views(fragments@)),
            names == names_of(loader::loaded_views(fragments@)),
            conflict_from(claims, names, 0) == conflict_from(claims, names, i as int),
    {
        assert(claims[i as int] == (
            fragments@[i as int].fragment.name@,
            text::texts(fragments@[i as int].fragment.conflicts.fragments@),
        ));
        if let Some(other) = present_conflict(
            &fragments[i].fragment.conflicts.fragments,
            fragments,
        ) {
            let mut out = "fragment '".to_owned();
            out.append(fragments[i].fragment.name.as_str());
            out.append("' declares a conflict with '");
            out.append(other);
            out.append("', which is also in the manifest");
            return Err(out);
        }
    }
    Ok(())
}

/// What a fragment ships of repositories: its name, the repo IDs it provides,
/// and its `.repo` files.
#[verifier::ext_equal]
pub struct RepoShare {
    pub name: Seq<char>,
    pub repos: Seq<Seq<char>>,
    pub files: Map<Seq<char>, Seq<char>>,
}

/// What each fragment of a list ships of repositories.
pub open spec fn shares_of(fragments: Seq<LoadedView>) -> Seq<RepoShare> {
    fragments.map_values(
        |f: LoadedView|
            RepoShare {
                name: f.fragment.name,
                repos: f.fragment.repos,
                files: f.repo_files,
            },
    )
}

/// The first fragment from place `i` on that provides a repo ID.
pub open spec fn provider_from(shares: Seq<RepoShare>, repo: Seq<char>, i: int) -> int
    decreases shares.len() - i,
{
    if i >= shares.len() || shares[i].repos.contains(repo) {
        i
    } else {
        provider_from(shares, repo, i + 1)
    }
}

/// The first repo ID of fragment `i`, from place `j` of its list on, of which
/// the first provider ships other `.repo` files, with that provider.
pub open spec fn clash_in(shares: Seq<RepoShare>, i: int, j: int) -> Option<(Seq<char>, int)>
    decreases shares[i].repos.len() - j,
{
    if j >= shares[i].repos.len() {
        None
    } else {
        let repo = shares[i].repos[j];
        let first = provider_from(shares, repo, 0);
        if shares[first].files != shares[i].files {
            Some((repo, first))
        } else {
            clash_in(shares, i, j + 1)
        }
    }
}

/// The first clash among the fragments from place `i` on: the repo ID, its
/// first provider, and the fragment that ships other files.
pub open spec fn clash_from(shares: Seq<RepoShare>, i: int) -> Option<
    (Seq<char>, Seq<char>, Seq<char>),
>
    decreases shares.len() - i,
{
    if i >= shares.len() {
        None
    } else {
        match clash_in(shares, i, 0) {
            Some((repo, first)) => Some((repo, shares[first].name, shares[i].name)),
            None => clash_from(shares, i + 1),
        }
    }
}

/// What is said of fragments that provide one repo ID with different files.
pub open spec fn repo_failure(shares: Seq<RepoShare>) -> Option<Seq<char>> {
    match clash_from(shares, 0) {
        Some((repo, first, other)) => Some(
            "repo '"@ + repo + "' has conflicting definitions: fragment '"@ + first
                + "' and fragment '"@ + other
                + "' provide different .repo content for the same repo ID"@,
        ),
        None => None,
    }
}

/// Whether a list holds a text.
fn list_contains(list: &[String], wanted: &str) -> (r: bool)
    ensures
        r == text::texts(list@).contains(wanted@),
{
    let ghost all = text::texts(list@);
    for i in 0..list.len()
        invariant
            all == text::texts(list@),
            forall|j: int| 0 <= j < i ==> #[trigger] all[j] != wanted@,
    {
        assert(all[i as int] == list@[i as int]@);
        if same_text(list[i].as_str(), wanted) {
            return true;
        }
    }
    false
}

/// The first fragment that provides a repo ID.
fn first_provider(fragments: &[LoadedFragment], repo: &str) -> (r: usize)
    ensures
        r == provider_from(shares_of(loader::loaded_views(fragments@)), repo@, 0),
        r <= fragments@.len(),
{
    let ghost shares = shares_of(loader::loaded_views(fragments@));
    let mut i: usize = 0;
    while i < fragments.len()
        invariant
            i <= fragments@.len(),
            shares == shares_of(loader::loaded_views(fragments@)),
            provider_from(shares, repo@, 0) == provider_from(shares, repo@, i as int),
        decreases fragments@.len() - i,
    {
        assert(shares[i as int].repos == text::texts(fragments@[i as int].fragment.provides.repos@));
        if list_contains(&fragments[i].fragment.provides.repos, repo) {
            return i;
        }
        i = i + 1;
    }
    i
}

/// A repo ID that a fragment provides has a first provider, at it or before
/// it.
proof fn lemma_provider(shares: Seq<RepoShare>, repo: Seq<char>, i: int, k: int)
    requires
        0 <= i <= k < shares.len(),
        shares[k].repos.contains(repo),
    ensures
        i <= provider_from(shares, repo, i) <= k,
        shares[provider_from(shares, repo, i)].repos.contains(repo),
    decreases k - i,
{
    if !shares[i].repos.contains(repo) {
        lemma_provider(shares, repo, i + 1, k);
    }
}

/// For each repo ID provided by more than one fragment, compare what those
/// fragments ship. Disagreement fails the build with a clear error. Agreement
/// is allowed through: every provider still emits its own COPY, the last one
/// wins, and the generated Containerfile's header comment names the
/// collision. Nothing is silently skipped.
///
/// The comparison is coarser than per-repo-ID: a fragment's *entire* set of
/// `.repo` files is attributed to every repo ID it provides. Two fragments
/// that agree on a shared repo ID but differ in some other `.repo` file they
/// also ship are therefore reported as conflicting on the shared ID.
pub fn check_repo_conflicts(fragments: &[LoadedFragment]) -> (r: Result<(), String>)
    ensures
        loader::failure_of(r) == repo_failure(shares_of(loader::loaded_views(fragments@))),
{
    let ghost shares = shares_of(loader::loaded_views(fragments@));
    for i in 0..fragments.len()
        invariant
            shares == shares_of(loader::loaded_views(fragments@)),
            clash_from(shares, 0) == clash_from(shares, i as int),
    {
        let repos = &fragments[i].fragment.provides.repos;
        assert(shares[i as int].repos == text::texts(repos@));
        assert(shares[i as int].files == fragments@[i as int].repo_file_contents@);
        for j in 0..repos.len()
            invariant
                i < fragments@.len(),
                shares == shares_of(loader::loaded_views(fragments@)),
                shares[i as int].repos == text::texts(repos@),
                shares[i as int].files == fragments@[i as int].repo_file_contents@,
                clash_from(shares, 0) == clash_from(shares, i as int),
                clash_in(shares, i as int, 0) == clash_in(shares, i as int, j as int),
        {
            let ghost repo = shares[i as int].repos[j as int];
            assert(repo == repos@[j as int]@);
            proof {
                assert(shares[i as int].repos.contains(repo));
                lemma_provider(shares, repo, 0, i as int);
            }
            let first = first_provider(fragments, repos[j].as_str());
            assert(shares[first as int].files == fragments@[first as int].repo_file_contents@);
            if !fragments[first].repo_file_contents.same_files(&fragments[i].repo_file_contents) {
                let mut out = "repo '".to_owned();
                out.append(repos[j].as_str());
                out.append("' has conflicting definitions: fragment '");
                out.append(fragments[first].fragment.name.as_str());
                out.append("' and fragment '");
                out.append(fragments[i].fragment.name.as_str());
                out.append("' provide different .repo content for the same repo ID");
                return Err(out);
            }
        }
    }
    Ok(())
}

/// Where nothing clashes in a fragment's list, the first provider of each of
/// its repo IDs ships the same files.
proof fn lemma_no_clash_in(shares: Seq<RepoShare>, i: int, j: int)
    requires
        0 <= i < shares.len(),
        0 <= j,
    ensures
        clash_in(shares, i, j) is None <==> forall|k: int|
            j <= k < shares[i].repos.len() ==> shares[provider_from(
                shares,
                #[trigger] shares[i].repos[k],
                0,
            )].files == shares[i].files,
    decreases shares[i].repos.len() - j,
{
    if j < shares[i].repos.len() {
        lemma_no_clash_in(shares, i, j + 1);
    }
}

/// Where nothing clashes, nothing clashes in any fragment's list.
proof fn lemma_no_clash(shares: Seq<RepoShare>, i: int)
    requires
        0 <= i,
    ensures
        clash_from(shares, i) is None <==> forall|k: int|
            i <= k < shares.len() ==> (#[trigger] clash_in(shares, k, 0)) is None,
    decreases shares.len() - i,
{
    if i < shares.len() {
        lemma_no_clash(shares, i + 1);
    }
}

/// The repo check passes exactly when fragments that provide one repo ID ship
/// the same `.repo` files.
pub proof fn law_repo_check_compares_all_providers(shares: Seq<RepoShare>)
    ensures
        repo_failure(shares) is None <==> forall|i: int, k: int, repo: Seq<char>|
            0 <= i < shares.len() && 0 <= k < shares.len()
                && #[trigger] shares[i].repos.contains(repo)
                && #[trigger] shares[k].repos.contains(repo) ==> shares[i].files
                == shares[k].files,
{
    lemma_no_clash(shares, 0);
    if repo_failure(shares) is None {
        assert forall|i: int, k: int, repo: Seq<char>|
            0 <= i < shares.len() && 0 <= k < shares.len()
                && #[trigger] shares[i].repos.contains(repo)
                && #[trigger] shares[k].repos.contains(repo) implies shares[i].files
            == shares[k].files by {
            assert(clash_in(shares, i, 0) is None);
            assert(clash_in(shares, k, 0) is None);
            lemma_no_clash_in(shares, i, 0);
            lemma_no_clash_in(shares, k, 0);
            let a = choose|a: int| 0 <= a < shares[i].repos.len() && shares[i].repos[a] == repo;
            let b = choose|b: int| 0 <= b < shares[k].repos.len() && shares[k].repos[b] == repo;
            assert(shares[i].repos[a] == repo);
            assert(shares[k].repos[b] == repo);
        }
    }
    if forall|i: int, k: int, repo: Seq<char>|
        0 <= i < shares.len() && 0 <= k < shares.len()
            && #[trigger] shares[i].repos.contains(repo)
            && #[trigger] shares[k].repos.contains(repo) ==> shares[i].files == shares[k].files {
        assert forall|i: int| 0 <= i < shares.len() implies (#[trigger] clash_in(shares, i, 0))
            is None by {
            lemma_no_clash_in(shares, i, 0);
            assert forall|a: int| 0 <= a < shares[i].repos.len() implies shares[provider_from(
                shares,
                #[trigger] shares[i].repos[a],
                0,
            )].files == shares[i].files by {
                let repo = shares[i].repos[a];
                assert(shares[i].repos.contains(repo));
                lemma_provider(shares, repo, 0, i);
                let p = provider_from(shares, repo, 0);
                assert(shares[p].repos.contains(repo));
            }
        }
    }
}

/// What is said of a build-mount fragment whose image is not pinned.
pub open spec fn unpinned_text(
    name: Seq<char>,
    declared: Seq<char>,
    resolved: Option<Seq<char>>,
) -> Seq<char> {
    let intro = "fragment '"@ + name
        + "' carries build mounts but its manifest entry is not pinned to a digest: "@ + declared
        + ". A movable tag on an artifact that injects trust material into the package step is an invisible substitution point: whoever can move the tag can swap a credential or a CA bundle and redirect the whole package fetch. Pin it by digest in the manifest:\n"@;
    intro + pin_advice(declared, resolved)
}

/// How the manifest entry of an image is pinned: the corrected line, and
/// where the digest is not known, the command that prints it.
pub open spec fn pin_advice(declared: Seq<char>, resolved: Option<Seq<char>>) -> Seq<char> {
    let repository = registry::image_parts(declared).0;
    match resolved {
        Some(digest) => "    image: "@ + repository + "@"@ + digest,
        None => "    image: "@ + repository
            + "@sha256:...\nObtain the digest with:\n    skopeo inspect --format '{{.Digest}}' docker://"@
            + declared,
    }
}

/// The unpinned build-mount error text.
///
/// `resolved` is the digest the tool read for `declared`, when it could read
/// one. Present, the corrected `image:` line is complete and the fix is a
/// paste. Absent, the line keeps its placeholder and the skopeo command that
/// fills it in follows, because that is the only case where the user has a
/// lookup left to do.
pub fn unpinned_mount_error(name: &str, declared: &str, resolved: Option<&str>) -> (out: String)
    ensures
        out@ == unpinned_text(
            name@,
            declared@,
            match resolved {
                Some(digest) => Some(digest@),
                None => None,
            },
        ),
{
    let (repository, _) = split_image_ref(declared);
    let mut out = "fragment '".to_owned();
    out.append(name);
    out.append("' carries build mounts but its manifest entry is not pinned to a digest: ");
    out.append(declared);
    out.append(". A movable tag on an artifact that injects trust material into the package step is an invisible substitution point: whoever can move the tag can swap a credential or a CA bundle and redirect the whole package fetch. Pin it by digest in the manifest:\n");
    let ghost intro = out@;
    out.append("    image: ");
    out.append(repository.as_str());
    match resolved {
        Some(digest) => {
            out.append("@");
            out.append(digest);
            assert(out@ =~= intro + pin_advice(declared@, Some(digest@)));
        },
        None => {
            out.append("@sha256:...\nObtain the digest with:\n    skopeo inspect --format '{{.Digest}}' docker://");
            out.append(declared);
            assert(out@ =~= intro + pin_advice(declared@, None));
        },
    }
    out
}

/// The fragment mounts material from an image that its manifest entry does
/// not pin to a digest.
pub open spec fn unpinned(images: Seq<Seq<char>>, fragment: LoadedView) -> bool {
    fragment.mount_points.len() > 0 && !text::occurs_in(
        "@sha256:"@,
        images[fragment.manifest_index],
    )
}

/// The first fragment from place `i` on that mounts material from an image
/// that is not pinned.
pub open spec fn unpinned_from(
    images: Seq<Seq<char>>,
    fragments: Seq<LoadedView>,
    i: int,
) -> Option<int>
    decreases fragments.len() - i,
{
    if i >= fragments.len() {
        None
    } else if unpinned(images, fragments[i]) {
        Some(i)
    } else {
        unpinned_from(images, fragments, i + 1)
    }
}

/// Every fragment that mounts material has an entry in the manifest.
pub open spec fn mounts_declared(images: Seq<Seq<char>>, fragments: Seq<LoadedView>) -> bool {
    forall|i: int|
        0 <= i < fragments.len() && (#[trigger] fragments[i]).mount_points.len() > 0
            ==> fragments[i].manifest_index < images.len()
}

/// The image whose digest is looked up: that of the first fragment that
/// mounts material from an image that is not pinned, where that fragment
/// carries no digest itself. Nothing is looked up otherwise.
pub open spec fn pin_question(images: Seq<Seq<char>>, fragments: Seq<LoadedView>) -> Option<
    Seq<char>,
> {
    match unpinned_from(images, fragments, 0) {
        Some(i) if fragments[i].resolved_digest is None => Some(
            images[fragments[i].manifest_index],
        ),
        _ => None,
    }
}

/// `failure` is what is said of the first fragment that mounts material from
/// an image that is not pinned, if there is one. The digest that the message
/// offers is the one the fragment carries, else the one that `resolve` finds.
pub open spec fn pin_failure<F: FnOnce(&str) -> Option<String>>(
    resolve: F,
    images: Seq<Seq<char>>,
    fragments: Seq<LoadedView>,
    failure: Option<Seq<char>>,
) -> bool {
    match unpinned_from(images, fragments, 0) {
        None => failure is None,
        Some(i) => {
            let declared = images[fragments[i].manifest_index];
            let name = fragments[i].fragment.name;
            match fragments[i].resolved_digest {
                Some(digest) => failure == Some(unpinned_text(name, declared, Some(digest))),
                None => exists|resolved: Option<String>|
                    {
                        &&& #[trigger] oci::answers(resolve, declared, resolved)
                        &&& failure == Some(
                            unpinned_text(name, declared, text::opt_text(resolved)),
                        )
                    },
            }
        },
    }
}

/// The first fragment that mounts material from an image that is not pinned.
fn first_unpinned(manifest: &Manifest, fragments: &[LoadedFragment]) -> (r: Option<usize>)
    requires
        mounts_declared(loader::declared_images(*manifest), loader::loaded_views(fragments@)),
    ensures
        match r {
            Some(i) => Some(i as int),
            None => None,
        } == unpinned_from(
            loader::declared_images(*manifest),
            loader::loaded_views(fragments@),
            0,
        ),
        r matches Some(i) ==> i < fragments@.len(),
{
    let ghost images = loader::declared_images(*manifest);
    let ghost views = loader::loaded_views(fragments@);
    for i in 0..fragments.len()
        invariant
            images == loader::declared_images(*manifest),
            views == loader::loaded_views(fragments@),
            mounts_declared(images, views),
            unpinned_from(images, views, 0) == unpinned_from(images, views, i as int),
    {
        let f = &fragments[i];
        assert(views[i as int] == f@);
        assert(views[i as int].mount_points.len() == f.mount_points@.len());
        if f.mount_points.len() > 0 {
            let declared = manifest.fragments[f.manifest_index].image.as_str();
            assert(images[f.manifest_index as int] == declared@);
            if !contains_text(declared, "@sha256:") {
                return Some(i);
            }
        }
    }
    None
}

/// A build-mount fragment referenced without a digest is a generation error.
///
/// A movable tag on an artifact that injects trust material into the package
/// step is an invisible substitution point: whoever can move the tag can
/// swap a CA bundle or a credential and redirect the entire package fetch.
/// The pin is checked against the manifest's own image reference, so it
/// survives regardless of `--pin-digests` and needs no per-fragment
/// retention machinery.
///
/// `resolve` looks a digest up. It only runs on a path that is already about
/// to abort, once and for the image in question: it enriches the error, and
/// does not decide whether one is raised.
pub fn check_mount_digest_pins(
    manifest: &Manifest,
    fragments: &[LoadedFragment],
    resolve: impl FnOnce(&str) -> Option<String>,
) -> (r: Result<(), String>)
    requires
        mounts_declared(loader::declared_images(*manifest), loader::loaded_views(fragments@)),
        pin_question(
            loader::declared_images(*manifest),
            loader::loaded_views(fragments@),
        ) matches Some(declared) ==> oci::may_ask(resolve, declared),
    ensures
        pin_failure(
            resolve,
            loader::declared_images(*manifest),
            loader::loaded_views(fragments@),
            loader::failure_of(r),
        ),
{
    let ghost images = loader::declared_images(*manifest);
    let ghost views = loader::loaded_views(fragments@);
    let i = match first_unpinned(manifest, fragments) {
        Some(i) => i,
        None => {
            return Ok(());
        },
    };
    let f = &fragments[i];
    assert(views[i as int] == f@);
    proof {
        lemma_unpinned_from(images, views, 0);
    }
    let declared = manifest.fragments[f.manifest_index].image.as_str();
    assert(images[f.manifest_index as int] == declared@);
    let resolved = match &f.resolved_digest {
        Some(digest) => Some(digest.clone()),
        None => {
            let answer = resolve(declared);
            assert(oci::answers(resolve, declared@, answer));
            answer
        },
    };
    let shown = match &resolved {
        Some(digest) => Some(digest.as_str()),
        None => None,
    };
    Err(unpinned_mount_error(f.fragment.name.as_str(), declared, shown))
}

/// Whether the pin check fails does not depend on what a digest lookup gives:
/// it fails exactly when some fragment mounts material from an image whose
/// manifest entry is not pinned.
pub proof fn law_pin_check_ignores_the_lookup<F: FnOnce(&str) -> Option<String>>(
    resolve: F,
    images: Seq<Seq<char>>,
    fragments: Seq<LoadedView>,
    failure: Option<Seq<char>>,
)
    requires
        pin_failure(resolve, images, fragments, failure),
    ensures
        failure is Some <==> exists|i: int|
            0 <= i < fragments.len() && unpinned(images, #[trigger] fragments[i]),
{
    lemma_unpinned_from(images, fragments, 0);
}

/// A digest is looked up only on the failing path, for the image that the
/// failure is about, and what is found decides nothing but the advice that
/// the failure ends with: the pinned line, or how to obtain the digest.
pub proof fn law_lookup_only_enriches_the_failure<F: FnOnce(&str) -> Option<String>>(
    resolve: F,
    images: Seq<Seq<char>>,
    fragments: Seq<LoadedView>,
    failure: Option<Seq<char>>,
)
    requires
        pin_failure(resolve, images, fragments, failure),
    ensures
        failure is None ==> pin_question(images, fragments) is None,
        pin_question(images, fragments) matches Some(declared) ==> exists|
            i: int,
            resolved: Option<String>,
        |
            {
                &&& unpinned_from(images, fragments, 0) == Some(i)
                &&& (#[trigger] fragments[i]).resolved_digest is None
                &&& declared == images[fragments[i].manifest_index]
                &&& #[trigger] oci::answers(resolve, declared, resolved)
                &&& failure is Some
                &&& pin_advice(declared, text::opt_text(resolved)).is_suffix_of(failure->0)
            },
{
    lemma_unpinned_from(images, fragments, 0);
    if let Some(declared) = pin_question(images, fragments) {
        let i = unpinned_from(images, fragments, 0)->0;
        let name = fragments[i].fragment.name;
        let resolved = choose|resolved: Option<String>|
            {
                &&& #[trigger] oci::answers(resolve, declared, resolved)
                &&& failure == Some(unpinned_text(name, declared, text::opt_text(resolved)))
            };
        let advice = pin_advice(declared, text::opt_text(resolved));
        let said = failure->0;
        assert(said.skip(said.len() - advice.len()) =~= advice);
        assert(advice.is_suffix_of(said));
    }
}

/// The search for an unpinned fragment finds one exactly when there is one.
proof fn lemma_unpinned_from(images: Seq<Seq<char>>, fragments: Seq<LoadedView>, i: int)
    requires
        0 <= i,
    ensures
        unpinned_from(images, fragments, i) matches Some(k) ==> i <= k < fragments.len()
            && unpinned(images, fragments[k]),
        unpinned_from(images, fragments, i) is None ==> forall|k: int|
            i <= k < fragments.len() ==> !unpinned(images, #[trigger] fragments[k]),
    decreases fragments.len() - i,
{
    if i < fragments.len() {
        lemma_unpinned_from(images, fragments, i + 1);
    }
}

/// What is said of one fragment's mounts: that its `mount/` directory is
/// empty, and that its annotation disagrees with its layers.
pub open spec fn fragment_notices(fragment: LoadedView) -> Seq<Seq<char>> {
    let empty = if fragment.has_mount_dir && fragment.mount_points.len() == 0 {
        seq![mount::empty_mount_text(fragment.fragment.name)]
    } else {
        Seq::empty()
    };
    match fragment.drift_warning {
        Some(warning) => empty.push(warning),
        None => empty,
    }
}

/// What is said of the mounts of each fragment of a list, in order.
pub open spec fn notices_of(fragments: Seq<LoadedView>) -> Seq<Seq<char>>
    decreases fragments.len(),
{
    if fragments.len() == 0 {
        Seq::empty()
    } else {
        notices_of(fragments.drop_last()) + fragment_notices(fragments.last())
    }
}

/// What is said of the mounts of each fragment of a list, in order.
pub fn mount_notices(fragments: &[LoadedFragment]) -> (out: Vec<String>)
    ensures
        text::texts(out@) == notices_of(loader::loaded_views(fragments@)),
{
    let ghost views = loader::loaded_views(fragments@);
    let mut out: Vec<String> = Vec::new();
    assert(text::texts(out@) =~= notices_of(views.take(0)));
    for i in 0..fragments.len()
        invariant
            views == loader::loaded_views(fragments@),
            text::texts(out@) == notices_of(views.take(i as int)),
    {
        let ghost before = text::texts(out@);
        let f = &fragments[i];
        assert(views[i as int] == f@);
        assert(views.take(i + 1).drop_last() =~= views.take(i as int));
        assert(views.take(i + 1).last() == f@);
        assert(f@.mount_points.len() == f.mount_points@.len());
        if let Some(notice) = empty_mount_notice(
            f.fragment.name.as_str(),
            f.has_mount_dir,
            &f.mount_points,
        ) {
            out.push(notice);
        }
        if let Some(warning) = &f.drift_warning {
            out.push(warning.clone());
        }
        assert(text::texts(out@) =~= before + fragment_notices(f@));
    }
    assert(views.take(views.len() as int) =~= views);
    out
}

/// What validating a composition gives: what is said of it whatever the
/// outcome, and the outcome.
#[derive(Debug)]
pub struct CompositionReport {
    pub notices: Vec<String>,
    pub outcome: Result<(), String>,
}

/// `failure` is what the first of the checks that fails says.
pub open spec fn composition_failure<F: FnOnce(&str) -> Option<String>>(
    resolve: F,
    images: Seq<Seq<char>>,
    fragments: Seq<LoadedView>,
    failure: Option<Seq<char>>,
) -> bool {
    let names = duplicate_failure(names_of(fragments));
    let conflicts = conflict_failure(conflicts_of(fragments), names_of(fragments));
    let repos = repo_failure(shares_of(fragments));
    if names is Some {
        failure == names
    } else if conflicts is Some {
        failure == conflicts
    } else if repos is Some {
        failure == repos
    } else {
        pin_failure(resolve, images, fragments, failure)
    }
}

/// The image whose digest is looked up when a composition is validated: none
/// where an earlier check fails.
pub open spec fn composition_question(
    images: Seq<Seq<char>>,
    fragments: Seq<LoadedView>,
) -> Option<Seq<char>> {
    if duplicate_failure(names_of(fragments)) is Some || conflict_failure(
        conflicts_of(fragments),
        names_of(fragments),
    ) is Some || repo_failure(shares_of(fragments)) is Some {
        None
    } else {
        pin_question(images, fragments)
    }
}

/// Generation-time mount diagnostics, and the validation checks in turn. This
/// is the choke point that generation always runs, while `inspect` and `list`
/// never call it, so the diagnostics are reported by generation alone.
pub fn validate_composition(
    manifest: &Manifest,
    fragments: &[LoadedFragment],
    resolve: impl FnOnce(&str) -> Option<String>,
) -> (report: CompositionReport)
    requires
        mounts_declared(loader::declared_images(*manifest), loader::loaded_views(fragments@)),
        composition_question(
            loader::declared_images(*manifest),
            loader::loaded_views(fragments@),
        ) matches Some(declared) ==> oci::may_ask(resolve, declared),
    ensures
        text::texts(report.notices@) == notices_of(loader::loaded_views(fragments@)),
        composition_failure(
            resolve,
            loader::declared_images(*manifest),
            loader::loaded_views(fragments@),
            loader::failure_of(report.outcome),
        ),
{
    let notices = mount_notices(fragments);
    if let Err(e) = check_duplicate_names(fragments) {
        return CompositionReport { notices, outcome: Err(e) };
    }
    if let Err(e) = check_conflicts(fragments) {
        return CompositionReport { notices, outcome: Err(e) };
    }
    if let Err(e) = check_repo_conflicts(fragments) {
        return CompositionReport { notices, outcome: Err(e) };
    }
    CompositionReport { notices, outcome: check_mount_digest_pins(manifest, fragments, resolve) }
}

/// The two fragments differ in nothing but their trees, their hooks and what
/// is said of their mounts.
pub open spec fn same_but_content(a: LoadedView, b: LoadedView) -> bool {
    &&& a.fragment == b.fragment
    &&& a.resolved_digest == b.resolved_digest
    &&& a.manifest_index == b.manifest_index
    &&& a.repo_files == b.repo_files
    &&& a.mount_points == b.mount_points
}

/// Whether a composition is valid depends on nothing that its fragments carry
/// in their trees and hooks, nor on what is said of their mounts: a mount
/// notice or a drift warning never fails a composition.
pub proof fn law_validation_ignores_content<F: FnOnce(&str) -> Option<String>>(
    resolve: F,
    images: Seq<Seq<char>>,
    a: Seq<LoadedView>,
    b: Seq<LoadedView>,
    failure: Option<Seq<char>>,
)
    requires
        a.len() == b.len(),
        forall|i: int| 0 <= i < a.len() ==> same_but_content(#[trigger] a[i], b[i]),
    ensures
        composition_failure(resolve, images, a, failure) == composition_failure(
            resolve,
            images,
            b,
            failure,
        ),
{
    assert(names_of(a) =~= names_of(b)) by {
        assert forall|i: int| 0 <= i < a.len() implies names_of(a)[i] == names_of(b)[i] by {
            assert(same_but_content(a[i], b[i]));
        }
    }
    assert(conflicts_of(a) =~= conflicts_of(b)) by {
        assert forall|i: int| 0 <= i < a.len() implies conflicts_of(a)[i] == conflicts_of(b)[i] by {
            assert(same_but_content(a[i], b[i]));
        }
    }
    assert(shares_of(a) =~= shares_of(b)) by {
        assert forall|i: int| 0 <= i < a.len() implies shares_of(a)[i] == shares_of(b)[i] by {
            assert(same_but_content(a[i], b[i]));
        }
    }
    lemma_unpinned_alike(images, a, b, 0);
    lemma_unpinned_from(images, a, 0);
    if let Some(i) = unpinned_from(images, a, 0) {
        assert(same_but_content(a[i], b[i]));
    }
}

/// Which fragment is found unpinned does not depend on content.
proof fn lemma_unpinned_alike(
    images: Seq<Seq<char>>,
    a: Seq<LoadedView>,
    b: Seq<LoadedView>,
    i: int,
)
    requires
        0 <= i,
        a.len() == b.len(),
        forall|k: int| 0 <= k < a.len() ==> same_but_content(#[trigger] a[k], b[k]),
    ensures
        unpinned_from(images, a, i) == unpinned_from(images, b, i),
    decreases a.len() - i,
{
    if i < a.len() {
        assert(same_but_content(a[i], b[i]));
        lemma_unpinned_alike(images, a, b, i + 1);
    }
}

/// The name check passes exactly when no two fragments have one name.
pub proof fn law_name_check_finds_every_duplicate(names: Seq<Seq<char>>)
    ensures
        duplicate_failure(names) is None <==> names.no_duplicates(),
{
    lemma_duplicate_from(names, 0);
    if names.no_duplicates() {
        assert forall|k: int| 0 <= k < names.len() implies !names.take(k).contains(
            #[trigger] names[k],
        ) by {
            if names.take(k).contains(names[k]) {
                let j = choose|j: int| 0 <= j < k && names.take(k)[j] == names[k];
                assert(names[j] == names[k]);
            }
        }
    }
    if duplicate_failure(names) is None {
        assert forall|i: int, j: int|
            0 <= i < names.len() && 0 <= j < names.len() && i != j implies names[i] != names[j] by {
            let (lo, hi) = if i < j {
                (i, j)
            } else {
                (j, i)
            };
            assert(!names.take(hi).contains(names[hi]));
            assert(names.take(hi)[lo] == names[lo]);
        }
    }
}

/// The search for a duplicate finds none exactly when no name came before.
proof fn lemma_duplicate_from(names: Seq<Seq<char>>, i: int)
    requires
        0 <= i,
    ensures
        duplicate_from(names, i) is None <==> forall|k: int|
            i <= k < names.len() ==> !names.take(k).contains(#[trigger] names[k]),
    decreases names.len() - i,
{
    if i < names.len() {
        lemma_duplicate_from(names, i + 1);
    }
}

/// The search for a present conflict finds none exactly when none is present.
proof fn lemma_present_from(conflicts: Seq<Seq<char>>, names: Seq<Seq<char>>, j: int)
    requires
        0 <= j,
    ensures
        present_from(conflicts, names, j) is None <==> forall|k: int|
            j <= k < conflicts.len() ==> !names.contains(#[trigger] conflicts[k]),
    decreases conflicts.len() - j,
{
    if j < conflicts.len() {
        lemma_present_from(conflicts, names, j + 1);
    }
}

/// The search for a conflict finds none exactly when no fragment has one.
proof fn lemma_conflict_from(
    claims: Seq<(Seq<char>, Seq<Seq<char>>)>,
    names: Seq<Seq<char>>,
    i: int,
)
    requires
        0 <= i,
    ensures
        conflict_from(claims, names, i) is None <==> forall|k: int|
            i <= k < claims.len() ==> present_from((#[trigger] claims[k]).1, names, 0) is None,
    decreases claims.len() - i,
{
    if i < claims.len() {
        lemma_conflict_from(claims, names, i + 1);
    }
}

/// The conflict check passes exactly when no fragment declares a conflict
/// with a name that is present, whichever of the two declares it.
pub proof fn law_conflict_check_finds_every_conflict(
    claims: Seq<(Seq<char>, Seq<Seq<char>>)>,
    names: Seq<Seq<char>>,
)
    ensures
        conflict_failure(claims, names) is None <==> forall|i: int, other: Seq<char>|
            0 <= i < claims.len() && #[trigger] claims[i].1.contains(other) ==> !names.contains(
                other,
            ),
{
    lemma_conflict_from(claims, names, 0);
    if conflict_failure(claims, names) is None {
        assert forall|i: int, other: Seq<char>|
            0 <= i < claims.len() && #[trigger] claims[i].1.contains(other) implies !names.contains(
            other,
        ) by {
            lemma_present_from(claims[i].1, names, 0);
            let k = choose|k: int| 0 <= k < claims[i].1.len() && claims[i].1[k] == other;
            assert(claims[i].1[k] == other);
        }
    }
    if forall|i: int, other: Seq<char>|
        0 <= i < claims.len() && #[trigger] claims[i].1.contains(other) ==> !names.contains(
            other,
        ) {
        assert forall|i: int| 0 <= i < claims.len() implies present_from(
            (#[trigger] claims[i]).1,
            names,
            0,
        ) is None by {
            lemma_present_from(claims[i].1, names, 0);
            assert forall|k: int| 0 <= k < claims[i].1.len() implies !names.contains(
                #[trigger] claims[i].1[k],
            ) by {
                assert(claims[i].1.contains(claims[i].1[k]));
            }
        }
    }
}

/// The two fragments provide a repo ID in common.
pub open spec fn share_a_repo(a: LoadedFragment, b: LoadedFragment) -> bool {
    exists|i: int, j: int|
        {
            &&& 0 <= i < a.fragment.provides.repos@.len()
            &&& 0 <= j < b.fragment.provides.repos@.len()
            &&& (#[trigger] a.fragment.provides.repos@[i])@ == (
            #[trigger] b.fragment.provides.repos@[j])@
        }
}

/// The first fragment declares a conflict with the second.
pub open spec fn declares_conflict(a: LoadedFragment, b: LoadedFragment) -> bool {
    exists|i: int|
        0 <= i < a.fragment.conflicts.fragments@.len() && (
        #[trigger] a.fragment.conflicts.fragments@[i])@ == b.fragment.name@
}

/// The image reference holds a digest.
pub open spec fn holds_digest(image: Seq<char>) -> bool {
    exists|i: int| 0 <= i <= image.len() && "@sha256:"@.is_prefix_of(#[trigger] image.skip(i))
}

proof fn lemma_holds_digest(image: Seq<char>)
    ensures
        text::occurs_in("@sha256:"@, image) <==> holds_digest(image),
{
    let needle = "@sha256:"@;
    if text::occurs_in(needle, image) {
        let i = choose|i: int| text::occurs_at(needle, image, i);
        assert(image.skip(i).subrange(0, needle.len() as int) =~= image.subrange(
            i,
            i + needle.len(),
        ));
        assert(needle.is_prefix_of(image.skip(i)));
    }
    if holds_digest(image) {
        let i = choose|i: int|
            0 <= i <= image.len() && needle.is_prefix_of(#[trigger] image.skip(i));
        assert(image.skip(i).subrange(0, needle.len() as int) =~= image.subrange(
            i,
            i + needle.len(),
        ));
        assert(text::occurs_at(needle, image, i));
    }
}

proof fn lemma_names_distinct(fragments: Seq<LoadedFragment>)
    ensures
        names_of(loader::loaded_views(fragments)).no_duplicates() <==> forall|i: int, j: int|
            0 <= i < j < fragments.len() ==> (#[trigger] fragments[i]).fragment.name@ != (
            #[trigger] fragments[j]).fragment.name@,
{
    let names = names_of(loader::loaded_views(fragments));
    assert forall|i: int| 0 <= i < fragments.len() implies #[trigger] names[i]
        == fragments[i].fragment.name@ by {}
    if names.no_duplicates() {
        assert forall|i: int, j: int| 0 <= i < j < fragments.len() implies (
        #[trigger] fragments[i]).fragment.name@ != (#[trigger] fragments[j]).fragment.name@ by {
            assert(names[i] != names[j]);
        }
    }
    if forall|i: int, j: int|
        0 <= i < j < fragments.len() ==> (#[trigger] fragments[i]).fragment.name@ != (
        #[trigger] fragments[j]).fragment.name@ {
        assert forall|i: int, j: int|
            0 <= i < names.len() && 0 <= j < names.len() && i != j implies names[i]
            != names[j] by {
            if i < j {
                assert(fragments[i].fragment.name@ != fragments[j].fragment.name@);
            } else {
                assert(fragments[j].fragment.name@ != fragments[i].fragment.name@);
            }
        }
    }
}

proof fn lemma_conflicts_declared(fragments: Seq<LoadedFragment>)
    ensures
        conflict_failure(
            conflicts_of(loader::loaded_views(fragments)),
            names_of(loader::loaded_views(fragments)),
        ) is None <==> forall|i: int, j: int|
            0 <= i < fragments.len() && 0 <= j < fragments.len() ==> !declares_conflict(
                #[trigger] fragments[i],
                #[trigger] fragments[j],
            ),
{
    let views = loader::loaded_views(fragments);
    let names = names_of(views);
    let claims = conflicts_of(views);
    law_conflict_check_finds_every_conflict(claims, names);
    assert forall|i: int| 0 <= i < fragments.len() implies #[trigger] names[i]
        == fragments[i].fragment.name@ by {}
    assert forall|i: int| 0 <= i < fragments.len() implies (#[trigger] claims[i]).1 == text::texts(
        fragments[i].fragment.conflicts.fragments@,
    ) by {}
    if conflict_failure(claims, names) is None {
        assert forall|i: int, j: int|
            0 <= i < fragments.len() && 0 <= j < fragments.len() implies !declares_conflict(
            #[trigger] fragments[i],
            #[trigger] fragments[j],
        ) by {
            if declares_conflict(fragments[i], fragments[j]) {
                let declared = fragments[i].fragment.conflicts.fragments@;
                let c = choose|c: int|
                    0 <= c < declared.len() && (#[trigger] declared[c])@
                        == fragments[j].fragment.name@;
                assert(claims[i].1[c] == declared[c]@);
                assert(claims[i].1.contains(fragments[j].fragment.name@));
                assert(names[j] == fragments[j].fragment.name@);
            }
        }
    }
    if forall|i: int, j: int|
        0 <= i < fragments.len() && 0 <= j < fragments.len() ==> !declares_conflict(
            #[trigger] fragments[i],
            #[trigger] fragments[j],
        ) {
        assert forall|i: int, other: Seq<char>|
            0 <= i < claims.len() && #[trigger] claims[i].1.contains(other) implies !names.contains(
            other,
        ) by {
            if names.contains(other) {
                let j = choose|j: int| 0 <= j < names.len() && names[j] == other;
                let c = choose|c: int| 0 <= c < claims[i].1.len() && claims[i].1[c] == other;
                let declared = fragments[i].fragment.conflicts.fragments@;
                assert(declared[c]@ == fragments[j].fragment.name@);
                assert(declares_conflict(fragments[i], fragments[j]));
            }
        }
    }
}

proof fn lemma_repos_shared(fragments: Seq<LoadedFragment>)
    ensures
        repo_failure(shares_of(loader::loaded_views(fragments))) is None <==> forall|i: int, j: int|
            0 <= i < fragments.len() && 0 <= j < fragments.len() && share_a_repo(
                #[trigger] fragments[i],
                #[trigger] fragments[j],
            ) ==> fragments[i].repo_file_contents@ == fragments[j].repo_file_contents@,
{
    let shares = shares_of(loader::loaded_views(fragments));
    law_repo_check_compares_all_providers(shares);
    assert forall|i: int| 0 <= i < fragments.len() implies {
        &&& (#[trigger] shares[i]).repos == text::texts(fragments[i].fragment.provides.repos@)
        &&& shares[i].files == fragments[i].repo_file_contents@
    } by {}
    if repo_failure(shares) is None {
        assert forall|i: int, j: int|
            0 <= i < fragments.len() && 0 <= j < fragments.len() && share_a_repo(
                #[trigger] fragments[i],
                #[trigger] fragments[j],
            ) implies fragments[i].repo_file_contents@ == fragments[j].repo_file_contents@ by {
            let x = fragments[i].fragment.provides.repos@;
            let y = fragments[j].fragment.provides.repos@;
            let (a, b) = choose|a: int, b: int|
                0 <= a < x.len() && 0 <= b < y.len() && (#[trigger] x[a])@ == (#[trigger] y[b])@;
            let repo = x[a]@;
            assert(shares[i].repos[a] == repo);
            assert(shares[j].repos[b] == repo);
            assert(shares[i].repos.contains(repo));
            assert(shares[j].repos.contains(repo));
            assert(shares[i].files == shares[j].files);
        }
    }
    if forall|i: int, j: int|
        0 <= i < fragments.len() && 0 <= j < fragments.len() && share_a_repo(
            #[trigger] fragments[i],
            #[trigger] fragments[j],
        ) ==> fragments[i].repo_file_contents@ == fragments[j].repo_file_contents@ {
        assert forall|i: int, k: int, repo: Seq<char>|
            0 <= i < shares.len() && 0 <= k < shares.len()
                && #[trigger] shares[i].repos.contains(repo)
                && #[trigger] shares[k].repos.contains(repo) implies shares[i].files
            == shares[k].files by {
            let a = choose|a: int| 0 <= a < shares[i].repos.len() && shares[i].repos[a] == repo;
            let b = choose|b: int| 0 <= b < shares[k].repos.len() && shares[k].repos[b] == repo;
            assert(fragments[i].fragment.provides.repos@[a]@
                == fragments[k].fragment.provides.repos@[b]@);
            assert(share_a_repo(fragments[i], fragments[k]));
        }
    }
}

proof fn lemma_all_pinned(manifest: Manifest, fragments: Seq<LoadedFragment>)
    requires
        mounts_declared(loader::declared_images(manifest), loader::loaded_views(fragments)),
    ensures
        unpinned_from(loader::declared_images(manifest), loader::loaded_views(fragments), 0)
            is None <==> forall|i: int|
            0 <= i < fragments.len() && (#[trigger] fragments[i]).mount_points@.len() > 0
                ==> holds_digest(
                manifest.fragments@[fragments[i].manifest_index as int].image@,
            ),
{
    let images = loader::declared_images(manifest);
    let views = loader::loaded_views(fragments);
    lemma_unpinned_from(images, views, 0);
    assert forall|i: int| 0 <= i < fragments.len() implies ((
    #[trigger] fragments[i]).mount_points@.len() > 0 && !holds_digest(
        manifest.fragments@[fragments[i].manifest_index as int].image@,
    )) == unpinned(images, views[i]) by {
        assert(views[i] == fragments[i]@);
        assert(views[i].mount_points.len() == fragments[i].mount_points@.len());
        if fragments[i].mount_points@.len() > 0 {
            assert(views[i].mount_points.len() > 0);
            assert(images[views[i].manifest_index]
                == manifest.fragments@[fragments[i].manifest_index as int].image@);
            lemma_holds_digest(images[views[i].manifest_index]);
        }
    }
}

/// A composition is valid exactly when no two fragments have one name, no
/// fragment declares a conflict with one that is there, any two fragments
/// that provide a repo ID in common ship the same `.repo` files, and every
/// fragment that mounts something comes from an image that the manifest pins
/// to a digest.
pub proof fn law_composition_is_valid_exactly_when<F: FnOnce(&str) -> Option<String>>(
    resolve: F,
    manifest: Manifest,
    fragments: Seq<LoadedFragment>,
    outcome: Result<(), String>,
)
    requires
        mounts_declared(loader::declared_images(manifest), loader::loaded_views(fragments)),
        composition_failure(
            resolve,
            loader::declared_images(manifest),
            loader::loaded_views(fragments),
            loader::failure_of(outcome),
        ),
    ensures
        outcome is Ok <==> {
            &&& forall|i: int, j: int|
                0 <= i < j < fragments.len() ==> (#[trigger] fragments[i]).fragment.name@ != (
                #[trigger] fragments[j]).fragment.name@
            &&& forall|i: int, j: int|
                0 <= i < fragments.len() && 0 <= j < fragments.len() ==> !declares_conflict(
                    #[trigger] fragments[i],
                    #[trigger] fragments[j],
                )
            &&& forall|i: int, j: int|
                0 <= i < fragments.len() && 0 <= j < fragments.len() && share_a_repo(
                    #[trigger] fragments[i],
                    #[trigger] fragments[j],
                ) ==> fragments[i].repo_file_contents@ == fragments[j].repo_file_contents@
            &&& forall|i: int|
                0 <= i < fragments.len() && (#[trigger] fragments[i]).mount_points@.len() > 0
                    ==> holds_digest(
                    manifest.fragments@[fragments[i].manifest_index as int].image@,
                )
        },
{
    let images = loader::declared_images(manifest);
    let views = loader::loaded_views(fragments);
    law_name_check_finds_every_duplicate(names_of(views));
    lemma_names_distinct(fragments);
    lemma_conflicts_declared(fragments);
    lemma_repos_shared(fragments);
    lemma_all_pinned(manifest, fragments);
}

/// Each of the checks fails on its own exactly when the composition breaks
/// its rule.
pub proof fn law_each_check_keeps_its_rule(fragments: Seq<LoadedFragment>)
    ensures
        duplicate_failure(names_of(loader::loaded_views(fragments))) is None <==> forall|
            i: int,
            j: int,
        |
            0 <= i < j < fragments.len() ==> (#[trigger] fragments[i]).fragment.name@ != (
            #[trigger] fragments[j]).fragment.name@,
        conflict_failure(
            conflicts_of(loader::loaded_views(fragments)),
            names_of(loader::loaded_views(fragments)),
        ) is None <==> forall|i: int, j: int|
            0 <= i < fragments.len() && 0 <= j < fragments.len() ==> !declares_conflict(
                #[trigger] fragments[i],
                #[trigger] fragments[j],
            ),
        repo_failure(shares_of(loader::loaded_views(fragments))) is None <==> forall|
            i: int,
            j: int,
        |
            0 <= i < fragments.len() && 0 <= j < fragments.len() && share_a_repo(
                #[trigger] fragments[i],
                #[trigger] fragments[j],
            ) ==> fragments[i].repo_file_contents@ == fragments[j].repo_file_contents@,
{
    law_name_check_finds_every_duplicate(names_of(loader::loaded_views(fragments)));
    lemma_names_distinct(fragments);
    lemma_conflicts_declared(fragments);
    lemma_repos_shared(fragments);
}

proof fn lemma_duplicate_found(names: Seq<Seq<char>>, i: int)
    requires
        0 <= i,
    ensures
        duplicate_from(names, i) matches Some(name) ==> exists|a: int, b: int|
            0 <= a < b < names.len() && #[trigger] names[a] == name && #[trigger] names[b] == name,
    decreases names.len() - i,
{
    if i < names.len() {
        if names.take(i).contains(names[i]) {
            let a = choose|a: int| 0 <= a < i && names.take(i)[a] == names[i];
            assert(names[a] == names[i]);
        } else {
            lemma_duplicate_found(names, i + 1);
        }
    }
}

proof fn lemma_conflict_found(
    claims: Seq<(Seq<char>, Seq<Seq<char>>)>,
    names: Seq<Seq<char>>,
    i: int,
)
    requires
        0 <= i,
    ensures
        conflict_from(claims, names, i) matches Some(found) ==> exists|a: int|
            {
                &&& 0 <= a < claims.len()
                &&& (#[trigger] claims[a]).0 == found.0
                &&& claims[a].1.contains(found.1)
                &&& names.contains(found.1)
            },
    decreases claims.len() - i,
{
    if i < claims.len() {
        lemma_present_found(claims[i].1, names, 0);
        if present_from(claims[i].1, names, 0) is None {
            lemma_conflict_found(claims, names, i + 1);
        } else {
            let found = conflict_from(claims, names, i)->0;
            assert(claims[i].0 == found.0);
        }
    }
}

proof fn lemma_present_found(conflicts: Seq<Seq<char>>, names: Seq<Seq<char>>, j: int)
    requires
        0 <= j,
    ensures
        present_from(conflicts, names, j) matches Some(other) ==> conflicts.contains(other)
            && names.contains(other),
    decreases conflicts.len() - j,
{
    if j < conflicts.len() && !names.contains(conflicts[j]) {
        lemma_present_found(conflicts, names, j + 1);
    }
}

proof fn lemma_clash_found(shares: Seq<RepoShare>, i: int)
    requires
        0 <= i,
    ensures
        clash_from(shares, i) matches Some(found) ==> exists|a: int, b: int|
            {
                &&& 0 <= a < shares.len()
                &&& 0 <= b < shares.len()
                &&& (#[trigger] shares[a]).name == found.1
                &&& (#[trigger] shares[b]).name == found.2
                &&& shares[a].repos.contains(found.0)
                &&& shares[b].repos.contains(found.0)
                &&& shares[a].files != shares[b].files
            },
    decreases shares.len() - i,
{
    if i < shares.len() {
        lemma_clash_found_in(shares, i, 0);
        if clash_in(shares, i, 0) is None {
            lemma_clash_found(shares, i + 1);
        } else {
            let (_, first) = clash_in(shares, i, 0)->0;
            let found = clash_from(shares, i)->0;
            assert(shares[first].name == found.1);
            assert(shares[i].name == found.2);
        }
    }
}

proof fn lemma_clash_found_in(shares: Seq<RepoShare>, i: int, j: int)
    requires
        0 <= i < shares.len(),
        0 <= j,
    ensures
        clash_in(shares, i, j) matches Some(found) ==> {
            &&& 0 <= found.1 <= i
            &&& shares[found.1].repos.contains(found.0)
            &&& shares[i].repos.contains(found.0)
            &&& shares[found.1].files != shares[i].files
        },
    decreases shares[i].repos.len() - j,
{
    if j < shares[i].repos.len() {
        let repo = shares[i].repos[j];
        assert(shares[i].repos.contains(repo));
        lemma_provider(shares, repo, 0, i);
        if shares[provider_from(shares, repo, 0)].files == shares[i].files {
            lemma_clash_found_in(shares, i, j + 1);
        }
    }
}

/// A failed check names what it found: a name that two fragments have, a
/// fragment and the present one that it conflicts with, or a repo ID and two
/// providers of it that ship different `.repo` files.
pub proof fn law_failed_checks_name_the_offenders(fragments: Seq<LoadedFragment>)
    ensures
        duplicate_failure(names_of(loader::loaded_views(fragments))) matches Some(e) ==> exists|
            i: int,
            j: int,
        |
            {
                &&& 0 <= i < j < fragments.len()
                &&& (#[trigger] fragments[i]).fragment.name@ == (
                #[trigger] fragments[j]).fragment.name@
                &&& e == "duplicate fragment name '"@ + fragments[i].fragment.name@
                    + "' \u{2014} each fragment must have a unique name"@
            },
        conflict_failure(
            conflicts_of(loader::loaded_views(fragments)),
            names_of(loader::loaded_views(fragments)),
        ) matches Some(e) ==> exists|i: int, j: int|
            {
                &&& 0 <= i < fragments.len()
                &&& 0 <= j < fragments.len()
                &&& declares_conflict(#[trigger] fragments[i], #[trigger] fragments[j])
                &&& e == "fragment '"@ + fragments[i].fragment.name@
                    + "' declares a conflict with '"@ + fragments[j].fragment.name@
                    + "', which is also in the manifest"@
            },
        repo_failure(shares_of(loader::loaded_views(fragments))) matches Some(e) ==> exists|
            i: int,
            j: int,
            a: int,
        |
            {
                &&& 0 <= i < fragments.len()
                &&& 0 <= j < fragments.len()
                &&& share_a_repo(fragments[i], #[trigger] fragments[j])
                &&& fragments[i].repo_file_contents@ != fragments[j].repo_file_contents@
                &&& 0 <= a < fragments[i].fragment.provides.repos@.len()
                &&& e == "repo '"@ + (#[trigger] fragments[i].fragment.provides.repos@[a])@
                    + "' has conflicting definitions: fragment '"@ + fragments[i].fragment.name@
                    + "' and fragment '"@ + fragments[j].fragment.name@
                    + "' provide different .repo content for the same repo ID"@
            },
{
    let views = loader::loaded_views(fragments);
    let names = names_of(views);
    let claims = conflicts_of(views);
    let shares = shares_of(views);
    assert forall|i: int| 0 <= i < fragments.len() implies #[trigger] names[i]
        == fragments[i].fragment.name@ by {}
    lemma_duplicate_found(names, 0);
    if let Some(name) = duplicate_from(names, 0) {
        let (a, b) = choose|a: int, b: int|
            0 <= a < b < names.len() && #[trigger] names[a] == name && #[trigger] names[b] == name;
        assert(fragments[a].fragment.name@ == fragments[b].fragment.name@);
    }
    lemma_conflict_found(claims, names, 0);
    if let Some(found) = conflict_from(claims, names, 0) {
        let a = choose|a: int|
            {
                &&& 0 <= a < claims.len()
                &&& (#[trigger] claims[a]).0 == found.0
                &&& claims[a].1.contains(found.1)
                &&& names.contains(found.1)
            };
        let j = choose|j: int| 0 <= j < names.len() && names[j] == found.1;
        let c = choose|c: int| 0 <= c < claims[a].1.len() && claims[a].1[c] == found.1;
        assert(fragments[a].fragment.conflicts.fragments@[c]@ == fragments[j].fragment.name@);
        assert(declares_conflict(fragments[a], fragments[j]));
    }
    lemma_clash_found(shares, 0);
    if let Some(found) = clash_from(shares, 0) {
        let (i, j) = choose|a: int, b: int|
            {
                &&& 0 <= a < shares.len()
                &&& 0 <= b < shares.len()
                &&& (#[trigger] shares[a]).name == found.1
                &&& (#[trigger] shares[b]).name == found.2
                &&& shares[a].repos.contains(found.0)
                &&& shares[b].repos.contains(found.0)
                &&& shares[a].files != shares[b].files
            };
        let a = choose|a: int| 0 <= a < shares[i].repos.len() && shares[i].repos[a] == found.0;
        let b = choose|b: int| 0 <= b < shares[j].repos.len() && shares[j].repos[b] == found.0;
        assert(fragments[i].fragment.provides.repos@[a]@
            == fragments[j].fragment.provides.repos@[b]@);
        assert(share_a_repo(fragments[i], fragments[j]));
        assert(fragments[i].fragment.provides.repos@[a]@ == found.0);
    }
}

/// The line that pins an image in the manifest.
pub open spec fn pinning_line(image: Seq<char>, digest: Seq<char>) -> Seq<char> {
    "    image: "@ + registry::image_parts(image).0 + "@"@ + digest
}

/// Of several problems the first check that finds one speaks: names before
/// conflicts, conflicts before repos, repos before pins. The failure of the
/// pin check names the fragment and the image as the manifest declares it,
/// and closes with the line that pins it: to the digest that the fragment
/// carries, or that was looked up, or with how to obtain it.
pub proof fn law_first_failing_check_speaks<F: FnOnce(&str) -> Option<String>>(
    resolve: F,
    manifest: Manifest,
    fragments: Seq<LoadedFragment>,
    failure: Option<Seq<char>>,
)
    requires
        mounts_declared(loader::declared_images(manifest), loader::loaded_views(fragments)),
        composition_failure(
            resolve,
            loader::declared_images(manifest),
            loader::loaded_views(fragments),
            failure,
        ),
    ensures
        ({
            let views = loader::loaded_views(fragments);
            let names = duplicate_failure(names_of(views));
            let conflicts = conflict_failure(conflicts_of(views), names_of(views));
            let repos = repo_failure(shares_of(views));
            &&& names is Some ==> failure == names
            &&& names is None && conflicts is Some ==> failure == conflicts
            &&& names is None && conflicts is None && repos is Some ==> failure == repos
            &&& names is None && conflicts is None && repos is None && failure is Some ==> exists|
                i: int,
                line: Seq<char>,
            |
                {
                    let f = fragments[i];
                    let image = manifest.fragments@[f.manifest_index as int].image@;
                    &&& 0 <= i < fragments.len()
                    &&& (#[trigger] fragments[i]).mount_points@.len() > 0
                    &&& !holds_digest(image)
                    &&& failure == Some(
                        "fragment '"@ + f.fragment.name@
                            + "' carries build mounts but its manifest entry is not pinned to a digest: "@
                            + image
                            + ". A movable tag on an artifact that injects trust material into the package step is an invisible substitution point: whoever can move the tag can swap a credential or a CA bundle and redirect the whole package fetch. Pin it by digest in the manifest:\n"@
                            + #[trigger] pinning_line(
                            manifest.fragments@[fragments[i].manifest_index as int].image@,
                            line,
                        ),
                    )
                    &&& f.resolved_digest matches Some(digest) ==> line == digest@
                    &&& f.resolved_digest is None ==> exists|found: Option<String>|
                        {
                            &&& #[trigger] oci::answers(resolve, image, found)
                            &&& line == match found {
                                Some(digest) => digest@,
                                None =>
                                    "sha256:...\nObtain the digest with:\n    skopeo inspect --format '{{.Digest}}' docker://"@
                                    + image,
                            }
                        }
                }
        }),
{
    let images = loader::declared_images(manifest);
    let views = loader::loaded_views(fragments);
    let names = duplicate_failure(names_of(views));
    let conflicts = conflict_failure(conflicts_of(views), names_of(views));
    let repos = repo_failure(shares_of(views));
    if names is None && conflicts is None && repos is None && failure is Some {
        lemma_unpinned_from(images, views, 0);
        let i = unpinned_from(images, views, 0)->0;
        let f = fragments[i];
        assert(views[i] == f@);
        assert(views[i].mount_points.len() == f.mount_points@.len());
        let image = manifest.fragments@[f.manifest_index as int].image@;
        assert(images[views[i].manifest_index] == image);
        lemma_holds_digest(image);
        reveal_strlit("@sha256:...\nObtain the digest with:\n    skopeo inspect --format '{{.Digest}}' docker://");
        reveal_strlit("sha256:...\nObtain the digest with:\n    skopeo inspect --format '{{.Digest}}' docker://");
        reveal_strlit("@");
        let unknown =
            "sha256:...\nObtain the digest with:\n    skopeo inspect --format '{{.Digest}}' docker://"@
            + image;
        assert(pin_advice(image, None) =~= pinning_line(image, unknown));
        match f.resolved_digest {
            Some(digest) => {
                assert(pin_advice(image, Some(digest@)) == pinning_line(image, digest@));
            },
            None => {
                let found = choose|resolved: Option<String>|
                    {
                        &&& #[trigger] oci::answers(resolve, image, resolved)
                        &&& failure == Some(
                            unpinned_text(f.fragment.name@, image, text::opt_text(resolved)),
                        )
                    };
                match found {
                    Some(digest) => {
                        assert(pin_advice(image, Some(digest@)) == pinning_line(image, digest@));
                    },
                    None => {},
                }
            },
        }
    }
}

/// Every fragment has its say, in order: one with a `mount/` directory and no
/// mount points is noticed, and a drift warning is passed on as it is.
pub proof fn law_every_fragment_has_its_notices(
    fragments: Seq<LoadedFragment>,
    notices: Seq<String>,
)
    requires
        text::texts(notices) == notices_of(loader::loaded_views(fragments)),
    ensures
        text::texts(notices) == fragments.map_values(
            |f: LoadedFragment|
                {
                    let empty = if f.has_mount_dir && f.mount_points@.len() == 0 {
                        seq![
                            "notice: fragment '"@ + f.fragment.name@
                                + "' carries a mount/ directory holding no files, so it derives no build mounts and nothing is mounted into the package or hook steps. Put the material at the path it should appear at during the build, for example mount/etc/pki/entitlement/cert.pem."@,
                        ]
                    } else {
                        Seq::empty()
                    };
                    match f.drift_warning {
                        Some(warning) => empty + seq![warning@],
                        None => empty,
                    }
                },
        ).flatten(),
{
    lemma_notices(fragments);
}

proof fn lemma_notices(fragments: Seq<LoadedFragment>)
    ensures
        notices_of(loader::loaded_views(fragments)) == fragments.map_values(
            |f: LoadedFragment|
                {
                    let empty = if f.has_mount_dir && f.mount_points@.len() == 0 {
                        seq![
                            "notice: fragment '"@ + f.fragment.name@
                                + "' carries a mount/ directory holding no files, so it derives no build mounts and nothing is mounted into the package or hook steps. Put the material at the path it should appear at during the build, for example mount/etc/pki/entitlement/cert.pem."@,
                        ]
                    } else {
                        Seq::empty()
                    };
                    match f.drift_warning {
                        Some(warning) => empty + seq![warning@],
                        None => empty,
                    }
                },
        ).flatten(),
    decreases fragments.len(),
{
    let say = |f: LoadedFragment|
        {
            let empty = if f.has_mount_dir && f.mount_points@.len() == 0 {
                seq![
                    "notice: fragment '"@ + f.fragment.name@
                        + "' carries a mount/ directory holding no files, so it derives no build mounts and nothing is mounted into the package or hook steps. Put the material at the path it should appear at during the build, for example mount/etc/pki/entitlement/cert.pem."@,
                ]
            } else {
                Seq::empty()
            };
            match f.drift_warning {
                Some(warning) => empty + seq![warning@],
                None => empty,
            }
        };
    let views = loader::loaded_views(fragments);
    if fragments.len() == 0 {
        assert(fragments.map_values(say) =~= Seq::empty());
        assert(notices_of(views) =~= fragments.map_values(say).flatten());
    } else {
        let front = fragments.drop_last();
        let last = fragments.last();
        lemma_notices(front);
        assert(views.drop_last() =~= loader::loaded_views(front));
        assert(views.last() == last@);
        assert(last@.mount_points.len() == last.mount_points@.len());
        assert(fragment_notices(last@) =~= say(last));
        assert(fragments.map_values(say) =~= front.map_values(say).push(say(last)));
        front.map_values(say).lemma_flatten_push(say(last));
        assert(notices_of(views) =~= fragments.map_values(say).flatten());
    }
}

proof fn lemma_first_duplicate(names: Seq<Seq<char>>, i: int)
    requires
        0 <= i,
    ensures
        duplicate_from(names, i) matches Some(name) ==> exists|b: int|
            {
                &&& i <= b < names.len()
                &&& #[trigger] names[b] == name
                &&& names.take(b).contains(name)
                &&& forall|c: int| i <= c < b ==> !names.take(c).contains(#[trigger] names[c])
            },
    decreases names.len() - i,
{
    if i < names.len() {
        if names.take(i).contains(names[i]) {
            assert(names[i] == duplicate_from(names, i)->0);
        } else {
            lemma_first_duplicate(names, i + 1);
        }
    }
}

proof fn lemma_first_conflict(
    claims: Seq<(Seq<char>, Seq<Seq<char>>)>,
    names: Seq<Seq<char>>,
    i: int,
)
    requires
        0 <= i,
    ensures
        conflict_from(claims, names, i) matches Some(found) ==> exists|a: int|
            {
                &&& i <= a < claims.len()
                &&& (#[trigger] claims[a]).0 == found.0
                &&& present_from(claims[a].1, names, 0) == Some(found.1)
                &&& forall|c: int|
                    i <= c < a ==> present_from((#[trigger] claims[c]).1, names, 0) is None
            },
    decreases claims.len() - i,
{
    if i < claims.len() {
        if present_from(claims[i].1, names, 0) is None {
            lemma_first_conflict(claims, names, i + 1);
        } else {
            let found = conflict_from(claims, names, i)->0;
            assert(claims[i].0 == found.0);
        }
    }
}

proof fn lemma_first_clash(shares: Seq<RepoShare>, i: int)
    requires
        0 <= i,
    ensures
        clash_from(shares, i) matches Some(found) ==> exists|b: int|
            {
                &&& i <= b < shares.len()
                &&& (#[trigger] shares[b]).name == found.2
                &&& clash_in(shares, b, 0) is Some
                &&& forall|c: int| i <= c < b ==> #[trigger] clash_in(shares, c, 0) is None
            },
    decreases shares.len() - i,
{
    if i < shares.len() {
        if clash_in(shares, i, 0) is None {
            lemma_first_clash(shares, i + 1);
        } else {
            let found = clash_from(shares, i)->0;
            assert(shares[i].name == found.2);
        }
    }
}

proof fn lemma_first_unpinned(images: Seq<Seq<char>>, fragments: Seq<LoadedView>, i: int)
    requires
        0 <= i,
    ensures
        unpinned_from(images, fragments, i) matches Some(k) ==> forall|c: int|
            i <= c < k ==> !unpinned(images, #[trigger] fragments[c]),
    decreases fragments.len() - i,
{
    if i < fragments.len() && !unpinned(images, fragments[i]) {
        lemma_first_unpinned(images, fragments, i + 1);
    }
}

/// Each check reports the first fragment that breaks its rule: nothing before
/// it breaks the rule with what came before.
pub proof fn law_first_offender_is_reported(manifest: Manifest, fragments: Seq<LoadedFragment>)
    ensures
        ({
            let views = loader::loaded_views(fragments);
            let images = loader::declared_images(manifest);
            let names = names_of(views);
            &&& duplicate_from(names, 0) matches Some(name) ==> exists|b: int|
                {
                    &&& 0 <= b < fragments.len()
                    &&& (#[trigger] fragments[b]).fragment.name@ == name
                    &&& forall|x: int, y: int|
                        0 <= x < y < b ==> (#[trigger] fragments[x]).fragment.name@ != (
                        #[trigger] fragments[y]).fragment.name@
                }
            &&& conflict_from(conflicts_of(views), names, 0) matches Some(found) ==> exists|a: int|
                {
                    &&& 0 <= a < fragments.len()
                    &&& (#[trigger] fragments[a]).fragment.name@ == found.0
                    &&& forall|x: int, y: int|
                        0 <= x < a && 0 <= y < fragments.len() ==> !declares_conflict(
                            #[trigger] fragments[x],
                            #[trigger] fragments[y],
                        )
                }
            &&& clash_from(shares_of(views), 0) matches Some(found) ==> exists|b: int|
                {
                    &&& 0 <= b < fragments.len()
                    &&& (#[trigger] fragments[b]).fragment.name@ == found.2
                    &&& forall|x: int, y: int|
                        0 <= x < b && 0 <= y < b && share_a_repo(
                            #[trigger] fragments[x],
                            #[trigger] fragments[y],
                        ) ==> fragments[x].repo_file_contents@ == fragments[y].repo_file_contents@
                }
            &&& mounts_declared(images, views) ==> (unpinned_from(images, views, 0) matches Some(k)
                ==> forall|c: int|
                0 <= c < k && (#[trigger] fragments[c]).mount_points@.len() > 0 ==> holds_digest(
                    manifest.fragments@[fragments[c].manifest_index as int].image@,
                ))
        }),
{
    let views = loader::loaded_views(fragments);
    let images = loader::declared_images(manifest);
    let names = names_of(views);
    let claims = conflicts_of(views);
    let shares = shares_of(views);
    assert forall|i: int| 0 <= i < fragments.len() implies #[trigger] names[i]
        == fragments[i].fragment.name@ by {}
    lemma_first_duplicate(names, 0);
    if let Some(name) = duplicate_from(names, 0) {
        let b = choose|b: int|
            {
                &&& 0 <= b < names.len()
                &&& #[trigger] names[b] == name
                &&& names.take(b).contains(name)
                &&& forall|c: int| 0 <= c < b ==> !names.take(c).contains(#[trigger] names[c])
            };
        assert(fragments[b].fragment.name@ == name);
        assert forall|x: int, y: int| 0 <= x < y < b implies (
        #[trigger] fragments[x]).fragment.name@ != (#[trigger] fragments[y]).fragment.name@ by {
            assert(!names.take(y).contains(names[y]));
            assert(names.take(y)[x] == names[x]);
        }
    }
    lemma_first_conflict(claims, names, 0);
    if let Some(found) = conflict_from(claims, names, 0) {
        let a = choose|a: int|
            {
                &&& 0 <= a < claims.len()
                &&& (#[trigger] claims[a]).0 == found.0
                &&& present_from(claims[a].1, names, 0) == Some(found.1)
                &&& forall|c: int|
                    0 <= c < a ==> present_from((#[trigger] claims[c]).1, names, 0) is None
            };
        assert(fragments[a].fragment.name@ == found.0);
        assert forall|x: int, y: int|
            0 <= x < a && 0 <= y < fragments.len() implies !declares_conflict(
            #[trigger] fragments[x],
            #[trigger] fragments[y],
        ) by {
            lemma_present_from(claims[x].1, names, 0);
            assert(present_from(claims[x].1, names, 0) is None);
            if declares_conflict(fragments[x], fragments[y]) {
                let declared = fragments[x].fragment.conflicts.fragments@;
                let c = choose|c: int|
                    0 <= c < declared.len() && (#[trigger] declared[c])@
                        == fragments[y].fragment.name@;
                assert(claims[x].1[c] == declared[c]@);
                assert(names[y] == fragments[y].fragment.name@);
                assert(names.contains(claims[x].1[c]));
            }
        }
    }
    lemma_first_clash(shares, 0);
    if let Some(found) = clash_from(shares, 0) {
        let b = choose|b: int|
            {
                &&& 0 <= b < shares.len()
                &&& (#[trigger] shares[b]).name == found.2
                &&& clash_in(shares, b, 0) is Some
                &&& forall|c: int| 0 <= c < b ==> #[trigger] clash_in(shares, c, 0) is None
            };
        assert(fragments[b].fragment.name@ == found.2);
        assert forall|x: int, y: int|
            0 <= x < b && 0 <= y < b && share_a_repo(
                #[trigger] fragments[x],
                #[trigger] fragments[y],
            ) implies fragments[x].repo_file_contents@ == fragments[y].repo_file_contents@ by {
            let p = fragments[x].fragment.provides.repos@;
            let q = fragments[y].fragment.provides.repos@;
            let (i, j) = choose|i: int, j: int|
                0 <= i < p.len() && 0 <= j < q.len() && (#[trigger] p[i])@ == (#[trigger] q[j])@;
            assert(clash_in(shares, x, 0) is None);
            assert(clash_in(shares, y, 0) is None);
            lemma_no_clash_in(shares, x, 0);
            lemma_no_clash_in(shares, y, 0);
            assert(shares[x].repos[i] == p[i]@);
            assert(shares[y].repos[j] == q[j]@);
        }
    }
    lemma_first_unpinned(images, views, 0);
    lemma_unpinned_from(images, views, 0);
    if mounts_declared(images, views) {
        if let Some(k) = unpinned_from(images, views, 0) {
            assert forall|c: int|
                0 <= c < k && (#[trigger] fragments[c]).mount_points@.len() > 0 implies
                holds_digest(manifest.fragments@[fragments[c].manifest_index as int].image@) by {
                assert(views[c] == fragments[c]@);
                assert(views[c].mount_points.len() == fragments[c].mount_points@.len());
                assert(!unpinned(images, views[c]));
                assert(images[views[c].manifest_index]
                    == manifest.fragments@[fragments[c].manifest_index as int].image@);
                lemma_holds_digest(images[views[c].manifest_index]);
            }
        }
    }
}

} // verus!
