//! Fragments as they are loaded: the metadata gathered from a fragment's
//! layers, and the list of fragments that a manifest names.

use vstd::prelude::*;

use crate::fragment;
use crate::fragment::{is_repo_path, Fragment, FragmentView};
use crate::layer;
use crate::layer::{
    extract_fragment_toml_from_bytes, extract_repo_file_contents_from_bytes,
    extract_tree_paths_from_bytes, plan_fragment_payload, LayerListing, ListingView, PayloadPlan,
};
use crate::manifest;
use crate::manifest::{FragmentSource, Manifest};
use crate::mount;
use crate::mount::{
    derive_mount_points, mount_annotation_drift, MountMaterialization, MountPoint,
};
use crate::path;
use crate::path::{sort_list, strip_prefix, ListOrder};
use crate::oci;
use crate::registry;
use crate::registry::{
    manifest_annotations, mounts_from_annotations, pinned_reference, try_annotation_fast_path,
    CommandOutput, MountAnnotation, MountAnnotationView,
};
use crate::repos::RepoFiles;
use crate::text;
use crate::text::starts_with;

verus! {

/// A fragment with everything that composing it needs.
#[derive(Debug, Clone)]
pub struct LoadedFragment {
    pub fragment: Fragment,
    pub tree_paths: Vec<String>,
    pub hook_paths: Vec<String>,
    pub source: FragmentSource,
    pub resolved_digest: Option<String>,
    /// Index into `manifest.fragments`. Emission is manifest order, so this
    /// equals the fragment's position in the list.
    pub manifest_index: usize,
    /// The `.repo` files the fragment ships, for repo conflict comparison.
    pub repo_file_contents: RepoFiles,
    /// What the fragment mounts into the package and hook steps.
    pub mount_points: Vec<MountPoint>,
    /// Whether the fragment carries a `mount/` directory at all.
    pub has_mount_dir: bool,
    /// What is to be said of a mounts annotation that disagrees with the
    /// layers.
    pub drift_warning: Option<String>,
}

/// What a [`LoadedFragment`] says.
#[verifier::ext_equal]
pub struct LoadedView {
    pub fragment: FragmentView,
    pub tree_paths: Seq<Seq<char>>,
    pub hook_paths: Seq<Seq<char>>,
    pub source: Seq<char>,
    pub resolved_digest: Option<Seq<char>>,
    pub manifest_index: int,
    pub repo_files: Map<Seq<char>, Seq<char>>,
    pub mount_points: Seq<Seq<char>>,
    pub has_mount_dir: bool,
    pub drift_warning: Option<Seq<char>>,
}

impl View for LoadedFragment {
    type V = LoadedView;

    open spec fn view(&self) -> LoadedView {
        LoadedView {
            fragment: self.fragment@,
            tree_paths: text::texts(self.tree_paths@),
            hook_paths: text::texts(self.hook_paths@),
            source: self.source.image(),
            resolved_digest: text::opt_text(self.resolved_digest),
            manifest_index: self.manifest_index as int,
            repo_files: self.repo_file_contents@,
            mount_points: mount::point_paths(self.mount_points@),
            has_mount_dir: self.has_mount_dir,
            drift_warning: text::opt_text(self.drift_warning),
        }
    }
}

/// What a list of loaded fragments says.
pub open spec fn loaded_views(fragments: Seq<LoadedFragment>) -> Seq<LoadedView> {
    fragments.map_values(|f: LoadedFragment| f@)
}

/// The paths of a fragment's tree: those below `tree/`.
pub open spec fn tree_part(paths: Seq<Seq<char>>) -> Seq<Seq<char>>
    decreases paths.len(),
{
    if paths.len() == 0 {
        Seq::empty()
    } else if "tree/"@.is_prefix_of(paths.last()) {
        tree_part(paths.drop_last()).push(paths.last())
    } else {
        tree_part(paths.drop_last())
    }
}

/// The paths of a fragment's tree that set up a repository, or those that do
/// not.
pub open spec fn split_part(paths: Seq<Seq<char>>, repo: bool) -> Seq<Seq<char>>
    decreases paths.len(),
{
    if paths.len() == 0 {
        Seq::empty()
    } else if "tree/"@.is_prefix_of(paths.last()) && fragment::repo_path(paths.last()) == repo {
        split_part(paths.drop_last(), repo).push(paths.last())
    } else {
        split_part(paths.drop_last(), repo)
    }
}

/// Splits the paths of a fragment's tree into those that set up a repository
/// and the rest, each in order. What does not lie below `tree/` is in
/// neither.
pub fn split_tree_paths(paths: &[String]) -> (r: (Vec<String>, Vec<String>))
    ensures
        text::texts(r.0@) == split_part(text::texts(paths@), true),
        text::texts(r.1@) == split_part(text::texts(paths@), false),
{
    let ghost all = text::texts(paths@);
    let mut repo: Vec<String> = Vec::new();
    let mut config: Vec<String> = Vec::new();
    assert(text::texts(repo@) =~= split_part(all.take(0), true));
    assert(text::texts(config@) =~= split_part(all.take(0), false));
    for i in 0..paths.len()
        invariant
            all == text::texts(paths@),
            text::texts(repo@) == split_part(all.take(i as int), true),
            text::texts(config@) == split_part(all.take(i as int), false),
    {
        let ghost repo_before = text::texts(repo@);
        let ghost config_before = text::texts(config@);
        let ghost p = all[i as int];
        assert(all.take(i + 1).drop_last() =~= all.take(i as int));
        assert(all.take(i + 1).last() == p);
        if starts_with(paths[i].as_str(), "tree/") {
            if is_repo_path(paths[i].as_str()) {
                repo.push(paths[i].clone());
                assert(text::texts(repo@) =~= repo_before.push(p));
            } else {
                config.push(paths[i].clone());
                assert(text::texts(config@) =~= config_before.push(p));
            }
        }
    }
    assert(all.take(all.len() as int) =~= all);
    (repo, config)
}

/// Splitting loses no path of the tree and doubles none: together the two
/// parts hold what lies below `tree/`, each path as often as it was given.
pub proof fn law_split_is_a_partition(paths: Seq<Seq<char>>)
    ensures
        split_part(paths, true).to_multiset().add(split_part(paths, false).to_multiset())
            == tree_part(paths).to_multiset(),
    decreases paths.len(),
{
    broadcast use vstd::seq_lib::group_to_multiset_ensures;

    let repo = split_part(paths, true).to_multiset();
    let config = split_part(paths, false).to_multiset();
    if paths.len() > 0 {
        let front = paths.drop_last();
        law_split_is_a_partition(front);
        let front_repo = split_part(front, true).to_multiset();
        let front_config = split_part(front, false).to_multiset();
        if "tree/"@.is_prefix_of(paths.last()) {
            if fragment::repo_path(paths.last()) {
                assert(repo =~= front_repo.insert(paths.last()));
            } else {
                assert(config =~= front_config.insert(paths.last()));
            }
        }
        assert(repo.add(config) =~= tree_part(paths).to_multiset());
    } else {
        assert(repo.add(config) =~= tree_part(paths).to_multiset());
    }
}

/// The single file under a fragment's `hooks/` that the tool runs.
pub const HOOKS_ENTRYPOINT_NAME: &'static str = "entrypoint";

/// Execute bits (`u+x`, `g+x`, `o+x`). Root's `CAP_DAC_OVERRIDE` grants
/// execute only when at least one of them is set, so this mask matches
/// exactly what is runnable at build time.
pub const EXECUTE_BITS: u32 = 0o111;

/// Why a fragment that carries hook files is refused, given the mode of its
/// `hooks/entrypoint` when that is a regular file.
pub open spec fn entrypoint_failure(
    fragment_name: Seq<char>,
    entrypoint_mode: Option<u32>,
) -> Option<Seq<char>> {
    match entrypoint_mode {
        None => Some(
            "fragment '"@ + fragment_name
                + "': hooks/ contains files but no executable hooks/entrypoint; the entrypoint is the single file osfragment-assemble runs. Rename the script to hooks/entrypoint, or add one that invokes the others."@,
        ),
        Some(mode) => if mode & EXECUTE_BITS == 0 {
            Some(
                "fragment '"@ + fragment_name
                    + "': hooks/entrypoint is not executable; the entrypoint is the single file osfragment-assemble runs. Set the execute bit (chmod +x) before building the fragment image."@,
            )
        } else {
            None
        },
    }
}

/// Enforce the hooks entrypoint contract for a fragment that carries at least
/// one hook file: `hooks/entrypoint` must exist as an executable regular
/// file, and it is the only thing the tool runs.
///
/// `entrypoint_mode` is the mode of `hooks/entrypoint` when it is a regular
/// file, and `None` when it is missing or is something else (a directory of
/// that name is not an entrypoint). Both validation sites — the registry
/// load, reading the mode off the tar header, and `inspect`, reading it off
/// the filesystem — call this so their messages cannot drift apart.
pub fn validate_hooks_entrypoint(
    fragment_name: &str,
    entrypoint_mode: Option<u32>,
) -> (r: Result<(), String>)
    ensures
        match r {
            Ok(_) => None,
            Err(e) => Some(e@),
        } == entrypoint_failure(fragment_name@, entrypoint_mode),
{
    let mut out = "fragment '".to_owned();
    out.append(fragment_name);
    match entrypoint_mode {
        None => {
            out.append("': hooks/ contains files but no executable hooks/entrypoint; the entrypoint is the single file osfragment-assemble runs. Rename the script to hooks/entrypoint, or add one that invokes the others.");
            Err(out)
        },
        Some(mode) => {
            if mode & EXECUTE_BITS == 0 {
                out.append("': hooks/entrypoint is not executable; the entrypoint is the single file osfragment-assemble runs. Set the execute bit (chmod +x) before building the fragment image.");
                Err(out)
            } else {
                Ok(())
            }
        },
    }
}

/// What was read of one layer.
#[derive(Debug)]
pub struct LayerScan {
    pub toml: Result<String, String>,
    pub listing: Result<LayerListing, String>,
    pub repos: Result<RepoFiles, String>,
}

/// What a [`LayerScan`] says.
#[verifier::ext_equal]
pub struct ScanView {
    pub toml: Result<Seq<char>, Seq<char>>,
    pub listing: Result<ListingView, Seq<char>>,
    pub repos: Result<Map<Seq<char>, Seq<char>>, Seq<char>>,
}

impl View for LayerScan {
    type V = ScanView;

    open spec fn view(&self) -> ScanView {
        ScanView {
            toml: text::result_text(self.toml),
            listing: layer::listing_view(self.listing),
            repos: layer::repos_view(self.repos),
        }
    }
}

/// What each scan of a list says.
pub open spec fn scan_views(scans: Seq<LayerScan>) -> Seq<ScanView> {
    scans.map_values(|s: LayerScan| s@)
}

/// What is read of a layer.
pub open spec fn scanned(layer: Seq<u8>) -> ScanView {
    let members = layer::layer_members(layer);
    ScanView {
        toml: layer::layer_toml(layer, members),
        listing: layer::layer_listing(members),
        repos: layer::layer_repos(layer, members),
    }
}

/// What is read of each layer.
pub open spec fn scanned_layers(layers: Seq<Vec<u8>>) -> Seq<ScanView> {
    layers.map_values(|l: Vec<u8>| scanned(l@))
}

/// Reads a layer.
pub fn scan_layer(layer: &[u8]) -> (scan: LayerScan)
    ensures
        scan@ == scanned(layer@),
{
    LayerScan {
        toml: extract_fragment_toml_from_bytes(layer),
        listing: extract_tree_paths_from_bytes(layer),
        repos: extract_repo_file_contents_from_bytes(layer),
    }
}

/// Of the paths that begin with `prefix`, those that lie below `base`, as
/// seen from there.
pub open spec fn remapped(
    paths: Seq<Seq<char>>,
    prefix: Seq<char>,
    base: Seq<char>,
) -> Seq<Seq<char>>
    decreases paths.len(),
{
    if paths.len() == 0 {
        Seq::empty()
    } else {
        let front = remapped(paths.drop_last(), prefix, base);
        match path::stripped(paths.last(), base) {
            Some(rel) if prefix.is_prefix_of(paths.last()) => front.push(rel),
            _ => front,
        }
    }
}

/// Of the paths that begin with `prefix`, those that lie below `base`, as
/// seen from there.
pub fn remap(paths: &[String], prefix: &str, base: &str) -> (out: Vec<String>)
    ensures
        text::texts(out@) == remapped(text::texts(paths@), prefix@, base@),
{
    let ghost all = text::texts(paths@);
    let mut out: Vec<String> = Vec::new();
    assert(text::texts(out@) =~= remapped(all.take(0), prefix@, base@));
    for i in 0..paths.len()
        invariant
            all == text::texts(paths@),
            text::texts(out@) == remapped(all.take(i as int), prefix@, base@),
    {
        let ghost before = text::texts(out@);
        assert(all.take(i + 1).drop_last() =~= all.take(i as int));
        assert(all.take(i + 1).last() == paths@[i as int]@);
        if starts_with(paths[i].as_str(), prefix) {
            if let Some(rel) = strip_prefix(paths[i].as_str(), base) {
                let ghost added = rel@;
                out.push(rel);
                assert(text::texts(out@) =~= before.push(added));
            }
        }
    }
    assert(all.take(all.len() as int) =~= all);
    out
}

/// What the layers of a fragment hold together.
#[verifier::ext_equal]
pub struct Gathered {
    pub has_toml: bool,
    pub tree_paths: Seq<Seq<char>>,
    pub hook_paths: Seq<Seq<char>>,
    pub mount_files: Seq<Seq<char>>,
    pub entrypoint_mode: Option<u32>,
    pub has_mount_dir: bool,
    pub repo_files: Map<Seq<char>, Seq<char>>,
}

/// What no layers hold.
pub open spec fn nothing_gathered() -> Gathered {
    Gathered {
        has_toml: false,
        tree_paths: Seq::empty(),
        hook_paths: Seq::empty(),
        mount_files: Seq::empty(),
        entrypoint_mode: None,
        has_mount_dir: false,
        repo_files: Map::empty(),
    }
}

/// What is gathered with one more layer. Later layers shadow earlier ones, so
/// the last entrypoint counts, and the last `.repo` file of a name.
pub open spec fn gathered_with(
    g: Gathered,
    has_toml: bool,
    listing: ListingView,
    repos: Map<Seq<char>, Seq<char>>,
) -> Gathered {
    Gathered {
        has_toml: g.has_toml || has_toml,
        tree_paths: g.tree_paths + remapped(listing.paths, ""@, "fragment"@),
        hook_paths: g.hook_paths + remapped(listing.paths, "fragment/hooks/"@, "fragment/hooks"@),
        mount_files: g.mount_files + remapped(
            listing.paths,
            "fragment/mount/"@,
            "fragment/mount"@,
        ),
        entrypoint_mode: if listing.entrypoint_mode is Some {
            listing.entrypoint_mode
        } else {
            g.entrypoint_mode
        },
        has_mount_dir: g.has_mount_dir || listing.has_mount_dir,
        repo_files: g.repo_files.union_prefer_right(repos),
    }
}

/// What is gathered with the layers from place `i` on, or the first reason
/// why one of them is refused. `parse_failure` is why the first readable
/// `fragment.toml` does not describe a fragment, if it does not.
pub open spec fn gather_from(
    scans: Seq<ScanView>,
    parse_failure: Option<Seq<char>>,
    i: int,
    g: Gathered,
) -> Result<Gathered, Seq<char>>
    decreases scans.len() - i,
{
    if i >= scans.len() {
        Ok(g)
    } else if !g.has_toml && scans[i].toml is Ok && parse_failure is Some {
        Err(parse_failure->0)
    } else {
        match (scans[i].listing, scans[i].repos) {
            (Err(e), _) => Err(e),
            (_, Err(e)) => Err(e),
            (Ok(listing), Ok(repos)) => gather_from(
                scans,
                parse_failure,
                i + 1,
                gathered_with(g, scans[i].toml is Ok, listing, repos),
            ),
        }
    }
}

/// The first `fragment.toml` from layer `i` on that can be read.
pub open spec fn toml_from(scans: Seq<ScanView>, i: int) -> Option<Seq<char>>
    decreases scans.len() - i,
{
    if i >= scans.len() {
        None
    } else {
        match scans[i].toml {
            Ok(toml) => Some(toml),
            Err(_) => toml_from(scans, i + 1),
        }
    }
}

/// The first `fragment.toml` that can be read.
pub fn first_toml(scans: &[LayerScan]) -> (r: Option<&str>)
    ensures
        match r {
            Some(toml) => Some(toml@),
            None => None,
        } == toml_from(scan_views(scans@), 0),
{
    let ghost views = scan_views(scans@);
    for i in 0..scans.len()
        invariant
            views == scan_views(scans@),
            toml_from(views, 0) == toml_from(views, i as int),
    {
        assert(views[i as int] == scans@[i as int]@);
        if let Ok(toml) = &scans[i].toml {
            return Some(toml.as_str());
        }
    }
    None
}

/// A fragment's metadata as gathered from its layers, before the
/// registry-specific fields (source, digest, manifest index) are attached.
#[derive(Debug)]
pub struct LayeredMetadata {
    pub fragment: Fragment,
    pub tree_paths: Vec<String>,
    pub hook_paths: Vec<String>,
    pub repo_file_contents: RepoFiles,
    pub mount_points: Vec<MountPoint>,
    pub has_mount_dir: bool,
}

/// Why the first readable `fragment.toml` does not describe a fragment.
pub open spec fn parse_failure(parsed: Option<Result<Fragment, String>>) -> Option<Seq<char>> {
    match parsed {
        Some(Err(e)) => Some(e@),
        _ => None,
    }
}

/// `r` is the metadata that the scans of a fragment's layers give, or the
/// first reason why they give none. `parsed` is what the first readable
/// `fragment.toml` describes.
pub open spec fn metadata_of(
    scans: Seq<ScanView>,
    parsed: Option<Result<Fragment, String>>,
    r: Result<LayeredMetadata, String>,
) -> bool {
    match gather_from(scans, parse_failure(parsed), 0, nothing_gathered()) {
        Err(e) => r matches Err(f) && f@ == e,
        Ok(g) => match parsed {
            Some(Ok(fragment)) if g.has_toml => {
                let name = fragment.name@;
                let hooks = entrypoint_failure(name, g.entrypoint_mode);
                let misplaced = mount::misplaced_file(g.mount_files);
                if g.hook_paths.len() > 0 && hooks is Some {
                    r matches Err(f) && f@ == hooks->0
                } else if misplaced is Some {
                    r matches Err(f) && f@ == mount::misplaced_text(name, misplaced->0)
                } else {
                    &&& r matches Ok(m)
                    &&& m.fragment == fragment
                    &&& text::texts(m.tree_paths@) == g.tree_paths
                    &&& text::texts(m.hook_paths@) == path::sorted(ListOrder::Paths, g.hook_paths)
                    &&& m.repo_file_contents@ == g.repo_files
                    &&& mount::derived_from(mount::point_paths(m.mount_points@), g.mount_files)
                    &&& m.has_mount_dir == g.has_mount_dir
                }
            },
            _ => r matches Err(f) && f@
                == "no layer containing fragment/fragment.toml found in image"@,
        },
    }
}

/// Aggregates what was read of a fragment's layers: `fragment.toml`, tree
/// paths, hooks, mount material and repo files may be spread across several
/// layers. The hooks entrypoint contract is enforced here, once, against the
/// aggregate, and so are the mount points derived.
///
/// `parsed` is what the first readable `fragment.toml` describes.
pub fn aggregate_layers(scans: &[LayerScan], parsed: Option<Result<Fragment, String>>) -> (r:
    Result<LayeredMetadata, String>)
    ensures
        metadata_of(scan_views(scans@), parsed, r),
{
    let ghost views = scan_views(scans@);
    let ghost given = parsed;
    let mut has_toml = false;
    let mut tree_paths: Vec<String> = Vec::new();
    let mut hook_paths: Vec<String> = Vec::new();
    let mut mount_files: Vec<String> = Vec::new();
    let mut entrypoint_mode: Option<u32> = None;
    let mut has_mount_dir = false;
    let mut repo_files = RepoFiles::new();
    let (fragment, failure) = match parsed {
        Some(Ok(fragment)) => (Some(fragment), None),
        Some(Err(e)) => (None, Some(e)),
        None => (None, None),
    };
    proof {
        assert(text::texts(tree_paths@) =~= Seq::empty());
        assert(text::texts(hook_paths@) =~= Seq::empty());
        assert(text::texts(mount_files@) =~= Seq::empty());
    }
    for i in 0..scans.len()
        invariant
            views == scan_views(scans@),
            given == parsed,
            text::opt_text(failure) == parse_failure(given),
            gather_from(views, parse_failure(given), 0, nothing_gathered()) == gather_from(
                views,
                parse_failure(given),
                i as int,
                Gathered {
                    has_toml,
                    tree_paths: text::texts(tree_paths@),
                    hook_paths: text::texts(hook_paths@),
                    mount_files: text::texts(mount_files@),
                    entrypoint_mode,
                    has_mount_dir,
                    repo_files: repo_files@,
                },
            ),
    {
        assert(views[i as int] == scans@[i as int]@);
        let ghost before = Gathered {
            has_toml,
            tree_paths: text::texts(tree_paths@),
            hook_paths: text::texts(hook_paths@),
            mount_files: text::texts(mount_files@),
            entrypoint_mode,
            has_mount_dir,
            repo_files: repo_files@,
        };
        let scan = &scans[i];
        if !has_toml && scan.toml.is_ok() {
            if let Some(e) = &failure {
                return Err(e.clone());
            }
        }
        let listing = match &scan.listing {
            Ok(listing) => listing,
            Err(e) => {
                return Err(e.clone());
            },
        };
        let repos = match &scan.repos {
            Ok(repos) => repos,
            Err(e) => {
                return Err(e.clone());
            },
        };
        has_toml = has_toml || scan.toml.is_ok();
        if listing.entrypoint_mode.is_some() {
            entrypoint_mode = listing.entrypoint_mode;
        }
        has_mount_dir = has_mount_dir || listing.has_mount_dir;
        let mut tree = remap(&listing.paths, "", "fragment");
        let mut hooks = remap(&listing.paths, "fragment/hooks/", "fragment/hooks");
        let mut mounts = remap(&listing.paths, "fragment/mount/", "fragment/mount");
        let ghost tree_texts = text::texts(tree@);
        let ghost hook_texts = text::texts(hooks@);
        let ghost mount_texts = text::texts(mounts@);
        tree_paths.append(&mut tree);
        hook_paths.append(&mut hooks);
        mount_files.append(&mut mounts);
        repo_files.extend(repos);
        proof {
            assert(text::texts(tree_paths@) =~= before.tree_paths + tree_texts);
            assert(text::texts(hook_paths@) =~= before.hook_paths + hook_texts);
            assert(text::texts(mount_files@) =~= before.mount_files + mount_texts);
            assert(gathered_with(before, scan@.toml is Ok, listing@, repos@) =~= (Gathered {
                has_toml,
                tree_paths: text::texts(tree_paths@),
                hook_paths: text::texts(hook_paths@),
                mount_files: text::texts(mount_files@),
                entrypoint_mode,
                has_mount_dir,
                repo_files: repo_files@,
            }));
        }
    }
    let fragment = match fragment {
        Some(fragment) if has_toml => fragment,
        _ => {
            return Err("no layer containing fragment/fragment.toml found in image".to_owned());
        },
    };
    let hook_paths = sort_hooks(hook_paths);
    if hook_paths.len() > 0 {
        if let Err(e) = validate_hooks_entrypoint(fragment.name.as_str(), entrypoint_mode) {
            return Err(e);
        }
    }
    let mount_points = match derive_mount_points(fragment.name.as_str(), &mount_files) {
        Ok(points) => points,
        Err(e) => {
            return Err(e.message());
        },
    };
    Ok(
        LayeredMetadata {
            fragment,
            tree_paths,
            hook_paths,
            repo_file_contents: repo_files,
            mount_points,
            has_mount_dir,
        },
    )
}

/// Hooks in path order.
fn sort_hooks(hook_paths: Vec<String>) -> (out: Vec<String>)
    ensures
        text::texts(out@) == path::sorted(ListOrder::Paths, text::texts(hook_paths@)),
        out@.len() == hook_paths@.len(),
{
    let out = sort_list(ListOrder::Paths, &hook_paths);
    proof {
        let list = text::texts(hook_paths@);
        broadcast use vstd::seq_lib::group_to_multiset_ensures;

        path::law_sorting_orders_the_same_entries(ListOrder::Paths, list);
        assert(path::sorted(ListOrder::Paths, list).to_multiset().len() == list.to_multiset().len());
        assert(text::texts(out@).len() == out@.len());
    }
    out
}

/// The layer carries the given hooks entrypoint, or carries none.
pub open spec fn carries_entrypoint(scan: ScanView, mode: Option<u32>) -> bool {
    scan.listing matches Ok(listing) && listing.entrypoint_mode == mode
}

/// The last entrypoint among the layers from place `i` on is the one that is
/// gathered.
proof fn lemma_last_entrypoint(
    scans: Seq<ScanView>,
    parse_failure: Option<Seq<char>>,
    i: int,
    g: Gathered,
)
    requires
        0 <= i,
    ensures
        gather_from(scans, parse_failure, i, g) matches Ok(all) ==> {
            ||| {
                &&& all.entrypoint_mode == g.entrypoint_mode
                &&& forall|j: int|
                    i <= j < scans.len() ==> carries_entrypoint(#[trigger] scans[j], None)
            }
            ||| all.entrypoint_mode is Some && exists|k: int|
                {
                    &&& i <= k < scans.len()
                    &&& carries_entrypoint(#[trigger] scans[k], all.entrypoint_mode)
                    &&& forall|j: int|
                        k < j < scans.len() ==> carries_entrypoint(#[trigger] scans[j], None)
                }
        },
    decreases scans.len() - i,
{
    if i < scans.len() && gather_from(scans, parse_failure, i, g) is Ok {
        let listing = scans[i].listing->Ok_0;
        let next = gathered_with(g, scans[i].toml is Ok, listing, scans[i].repos->Ok_0);
        lemma_last_entrypoint(scans, parse_failure, i + 1, next);
        assert(carries_entrypoint(scans[i], listing.entrypoint_mode));
    }
}

/// A fragment that carries hooks loads only with an entrypoint that can be
/// run: the last layer that carries `hooks/entrypoint` as a regular file has
/// it executable.
pub proof fn law_loaded_hooks_can_be_run(
    scans: Seq<ScanView>,
    parsed: Option<Result<Fragment, String>>,
    metadata: LayeredMetadata,
)
    requires
        metadata_of(scans, parsed, Ok(metadata)),
        metadata.hook_paths@.len() > 0,
    ensures
        exists|k: int, mode: u32|
            {
                &&& 0 <= k < scans.len()
                &&& #[trigger] carries_entrypoint(scans[k], Some(mode))
                &&& mode & EXECUTE_BITS != 0
                &&& forall|j: int|
                    k < j < scans.len() ==> carries_entrypoint(#[trigger] scans[j], None)
            },
{
    lemma_last_entrypoint(scans, parse_failure(parsed), 0, nothing_gathered());
    let all = gather_from(scans, parse_failure(parsed), 0, nothing_gathered())->Ok_0;
    path::law_sorting_orders_the_same_entries(ListOrder::Paths, all.hook_paths);
    assert(text::texts(metadata.hook_paths@).len() == metadata.hook_paths@.len());
    assert(all.hook_paths.len() > 0) by {
        if all.hook_paths.len() == 0 {
            assert(path::sorted(ListOrder::Paths, all.hook_paths).len() == 0);
        }
    }
    let mode = all.entrypoint_mode->0;
    let k = choose|k: int|
        {
            &&& 0 <= k < scans.len()
            &&& carries_entrypoint(#[trigger] scans[k], all.entrypoint_mode)
            &&& forall|j: int|
                k < j < scans.len() ==> carries_entrypoint(#[trigger] scans[j], None)
        };
    assert(carries_entrypoint(scans[k], Some(mode)));
}

/// The two scans differ in nothing but the message of a refusal.
pub open spec fn scans_alike(a: ScanView, b: ScanView) -> bool {
    &&& layer::alike(a.toml, b.toml)
    &&& layer::alike(a.listing, b.listing)
    &&& layer::alike(a.repos, b.repos)
}

/// The two lists of scans differ in nothing but the messages of refusals.
pub open spec fn all_scans_alike(a: Seq<ScanView>, b: Seq<ScanView>) -> bool {
    &&& a.len() == b.len()
    &&& forall|k: int| 0 <= k < a.len() ==> scans_alike(#[trigger] a[k], b[k])
}

/// What is gathered from alike scans, from place `i` on, is the same, or both
/// are refused.
proof fn lemma_gathered_alike(
    a: Seq<ScanView>,
    b: Seq<ScanView>,
    parse_failure: Option<Seq<char>>,
    i: int,
    g: Gathered,
)
    requires
        0 <= i,
        all_scans_alike(a, b),
    ensures
        layer::alike(
            gather_from(a, parse_failure, i, g),
            gather_from(b, parse_failure, i, g),
        ),
        toml_from(a, i) == toml_from(b, i),
    decreases a.len() - i,
{
    if i < a.len() {
        assert(scans_alike(a[i], b[i]));
        lemma_gathered_alike(a, b, parse_failure, i + 1, g);
        if let (Ok(listing), Ok(repos)) = (a[i].listing, a[i].repos) {
            let more = gathered_with(g, a[i].toml is Ok, listing, repos);
            lemma_gathered_alike(a, b, parse_failure, i + 1, more);
        }
    }
}

/// Both loads fail, or both succeed with the same metadata.
pub open spec fn metadata_alike(
    a: Result<LayeredMetadata, String>,
    b: Result<LayeredMetadata, String>,
) -> bool {
    match (a, b) {
        (Ok(x), Ok(y)) => {
            &&& x.fragment == y.fragment
            &&& text::texts(x.tree_paths@) == text::texts(y.tree_paths@)
            &&& text::texts(x.hook_paths@) == text::texts(y.hook_paths@)
            &&& x.repo_file_contents@ == y.repo_file_contents@
            &&& mount::point_paths(x.mount_points@) == mount::point_paths(y.mount_points@)
            &&& x.has_mount_dir == y.has_mount_dir
        },
        (Err(_), Err(_)) => true,
        _ => false,
    }
}

/// The two layers hold the same members with the same contents, and differ in
/// nothing but how member paths below `fragment/` are spelled.
pub open spec fn respelled_layer(a: Seq<u8>, b: Seq<u8>) -> bool {
    &&& match (layer::layer_members(a), layer::layer_members(b)) {
        (Ok(x), Ok(y)) => layer::respelled_members(x, y),
        (Err(x), Err(y)) => x == y,
        _ => false,
    }
    &&& forall|k: nat| #[trigger] layer::member_content(a, k) == layer::member_content(b, k)
}

/// A load does not depend on how the archives of its layers spell member
/// paths: of layers that differ in nothing else the same `fragment.toml` is
/// parsed, and the loads fail both or give the same metadata. In particular
/// no spelling keeps hooks from being found or the entrypoint from being
/// checked.
pub proof fn law_spelling_does_not_change_a_load(
    a: Seq<Vec<u8>>,
    b: Seq<Vec<u8>>,
    parsed: Option<Result<Fragment, String>>,
    from_a: Result<LayeredMetadata, String>,
    from_b: Result<LayeredMetadata, String>,
)
    requires
        a.len() == b.len(),
        forall|k: int| 0 <= k < a.len() ==> respelled_layer((#[trigger] a[k])@, b[k]@),
        metadata_of(scanned_layers(a), parsed, from_a),
        metadata_of(scanned_layers(b), parsed, from_b),
    ensures
        toml_from(scanned_layers(a), 0) == toml_from(scanned_layers(b), 0),
        metadata_alike(from_a, from_b),
{
    let x = scanned_layers(a);
    let y = scanned_layers(b);
    assert forall|k: int| 0 <= k < x.len() implies scans_alike(#[trigger] x[k], y[k]) by {
        assert(respelled_layer(a[k]@, b[k]@));
        if let (Ok(p), Ok(q)) = (layer::layer_members(a[k]@), layer::layer_members(b[k]@)) {
            layer::law_respelled_layers_are_read_alike(a[k]@, b[k]@, p, q);
        }
    }
    lemma_gathered_alike(x, y, parse_failure(parsed), 0, nothing_gathered());
    if let (Ok(m), Ok(n)) = (from_a, from_b) {
        let g = gather_from(x, parse_failure(parsed), 0, nothing_gathered())->Ok_0;
        mount::law_files_determine_mount_points(
            mount::point_paths(m.mount_points@),
            mount::point_paths(n.mount_points@),
            g.mount_files,
        );
    }
}

/// Layers whose members are the same but for spelling and hold the same
/// contents load the same: whatever may come of the one list of layers may
/// come of the other.
pub proof fn law_same_members_load_the_same(
    a: Seq<Vec<u8>>,
    b: Seq<Vec<u8>>,
    parsed: Option<Result<Fragment, String>>,
    r: Result<LayeredMetadata, String>,
)
    requires
        a.len() == b.len(),
        forall|k: int|
            0 <= k < a.len() ==> {
                &&& layer::layer_members((#[trigger] a[k])@) matches Ok(x)
                &&& layer::layer_members(b[k]@) matches Ok(y)
                &&& layer::same_members(x, y)
            },
        forall|k: int, m: nat|
            0 <= k < a.len() ==> #[trigger] layer::member_content(a[k]@, m)
                == layer::member_content(b[k]@, m),
    ensures
        metadata_of(scanned_layers(a), parsed, r) <==> metadata_of(scanned_layers(b), parsed, r),
{
    let x = scanned_layers(a);
    let y = scanned_layers(b);
    assert forall|k: int| 0 <= k < x.len() implies #[trigger] x[k] == y[k] by {
        let p = layer::layer_members(a[k]@)->Ok_0;
        let q = layer::layer_members(b[k]@)->Ok_0;
        layer::law_layers_are_read_alike_in_every_spelling(p, q);
        let wanted = layer::repo_search_from(p, 0, Seq::empty()).0;
        assert(wanted.map_values(
            |m: (int, Seq<char>)| layer::member_content(a[k]@, m.0 as nat),
        ) =~= wanted.map_values(|m: (int, Seq<char>)| layer::member_content(b[k]@, m.0 as nat)));
    }
    assert(x =~= y);
}

/// `r` is what the layers of a fragment give, `parse` being asked what the
/// first readable `fragment.toml` describes.
pub open spec fn layers_parsed<P: FnOnce(&str) -> Result<Fragment, String>>(
    parse: P,
    layers: Seq<Vec<u8>>,
    r: Result<LayeredMetadata, String>,
) -> bool {
    match toml_from(scanned_layers(layers), 0) {
        None => metadata_of(scanned_layers(layers), None, r),
        Some(toml) => exists|parsed: Result<Fragment, String>|
            {
                &&& oci::answers(parse, toml, parsed)
                &&& #[trigger] metadata_of(scanned_layers(layers), Some(parsed), r)
            },
    }
}

/// Scan all layers and aggregate what they hold. `parse` turns a
/// `fragment.toml` into the fragment it describes; it is asked for the first
/// that can be read.
pub fn fragment_from_layers(
    layers: &[Vec<u8>],
    parse: impl FnOnce(&str) -> Result<Fragment, String>,
) -> (r: Result<LayeredMetadata, String>)
    requires
        toml_from(scanned_layers(layers@), 0) matches Some(toml) ==> oci::may_ask(parse, toml),
    ensures
        layers_parsed(parse, layers@, r),
{
    let ghost views = scanned_layers(layers@);
    let mut scans: Vec<LayerScan> = Vec::new();
    for i in 0..layers.len()
        invariant
            views == scanned_layers(layers@),
            scan_views(scans@) == views.take(i as int),
    {
        let ghost before = scan_views(scans@);
        let scan = scan_layer(layers[i].as_slice());
        let ghost added = scan@;
        assert(views[i as int] == added);
        scans.push(scan);
        assert(scan_views(scans@) =~= before.push(added));
        assert(scan_views(scans@) =~= views.take(i + 1));
    }
    assert(views.take(views.len() as int) =~= views);
    let parsed = match first_toml(&scans) {
        None => None,
        Some(toml) => {
            let answer = parse(toml);
            assert(oci::answers(parse, toml@, answer));
            Some(answer)
        },
    };
    aggregate_layers(&scans, parsed)
}

/// What the mounts annotation of an image says, given the answer to the query
/// for its manifest. An answer that cannot be read says nothing.
pub open spec fn claimed_mounts(answer: Result<CommandOutput, String>) -> MountAnnotationView {
    match answer {
        Ok(output) => if output.success {
            match registry::annotations_of(crate::json::object_members(output.stdout@)) {
                Ok(annotations) => registry::annotated_mounts(annotations),
                Err(_) => MountAnnotationView::Absent,
            }
        } else {
            MountAnnotationView::Absent
        },
        Err(_) => MountAnnotationView::Absent,
    }
}

/// What the mounts annotation of an image says, given the answer to the query
/// for its manifest.
pub fn mount_claims(answer: &Result<CommandOutput, String>) -> (r: MountAnnotation)
    ensures
        r@ == claimed_mounts(*answer),
{
    if let Ok(output) = answer {
        if output.success {
            if let Ok(annotations) = manifest_annotations(output.stdout.as_slice()) {
                return mounts_from_annotations(&annotations);
            }
        }
    }
    MountAnnotation::Absent
}

/// The warning about a mounts annotation, if there is one and it names other
/// mount points than the layers do.
pub open spec fn claim_drift(
    fragment_name: Seq<char>,
    claims: MountAnnotationView,
    derived: Seq<Seq<char>>,
) -> Option<Seq<char>> {
    match claims {
        MountAnnotationView::Points(annotated) => mount::drift(fragment_name, annotated, derived),
        _ => None,
    }
}

/// The fragment that is loaded from a pinned image: the metadata of its
/// layers, where it came from, and what is to be said of its mounts
/// annotation.
pub open spec fn loaded_from(
    metadata: LayeredMetadata,
    image_ref: Seq<char>,
    digest: Seq<char>,
    claims: MountAnnotationView,
) -> LoadedView {
    let points = mount::point_paths(metadata.mount_points@);
    LoadedView {
        fragment: metadata.fragment@,
        tree_paths: text::texts(metadata.tree_paths@),
        hook_paths: text::texts(metadata.hook_paths@),
        source: image_ref,
        resolved_digest: Some(digest),
        manifest_index: 0,
        repo_files: metadata.repo_file_contents@,
        mount_points: points,
        has_mount_dir: metadata.has_mount_dir,
        drift_warning: claim_drift(metadata.fragment.name@, claims, points),
    }
}

/// The fragment that is loaded from a pinned image.
pub fn assemble_fragment(
    metadata: LayeredMetadata,
    image_ref: String,
    digest: String,
    claims: &MountAnnotation,
) -> (loaded: LoadedFragment)
    ensures
        loaded@ == loaded_from(metadata, image_ref@, digest@, claims@),
{
    let drift_warning = match claims {
        MountAnnotation::Points(annotated) => mount_annotation_drift(
            metadata.fragment.name.as_str(),
            annotated,
            &metadata.mount_points,
        ),
        _ => None,
    };
    LoadedFragment {
        fragment: metadata.fragment,
        tree_paths: metadata.tree_paths,
        hook_paths: metadata.hook_paths,
        source: FragmentSource::Registry { image_ref },
        resolved_digest: Some(digest),
        manifest_index: 0,
        repo_file_contents: metadata.repo_file_contents,
        mount_points: metadata.mount_points,
        has_mount_dir: metadata.has_mount_dir,
        drift_warning,
    }
}

/// What loading a fragment gave.
pub open spec fn loaded_result(r: Result<LoadedFragment, String>) -> Result<
    LoadedView,
    Seq<char>,
> {
    match r {
        Ok(loaded) => Ok(loaded@),
        Err(e) => Err(e@),
    }
}

/// `r` is what the layers of a pinned image make of it, given what pulling
/// them gave.
pub open spec fn pulled_fragment<
    I: FnOnce(&str) -> Result<CommandOutput, String>,
    P: FnOnce(&str) -> Result<Fragment, String>,
>(
    inspect: I,
    parse: P,
    image_ref: Seq<char>,
    digest: Seq<char>,
    layers: Result<Vec<Vec<u8>>, String>,
    r: Result<LoadedView, Seq<char>>,
) -> bool {
    match layers {
        Err(e) => r == Err::<LoadedView, Seq<char>>(e@),
        Ok(layers) => exists|metadata: Result<LayeredMetadata, String>|
            {
                &&& #[trigger] layers_parsed(parse, layers@, metadata)
                &&& match metadata {
                    Err(e) => r == Err::<LoadedView, Seq<char>>(e@),
                    Ok(metadata) => exists|answer: Result<CommandOutput, String>|
                        {
                            &&& #[trigger] oci::answers(inspect, image_ref, answer)
                            &&& r == Ok::<LoadedView, Seq<char>>(
                                loaded_from(metadata, image_ref, digest, claimed_mounts(answer)),
                            )
                        },
                }
            },
    }
}

/// `r` is what a registry load of an image makes of it, given what resolving
/// its digest gave. What is pulled and inspected is the image pinned to that
/// digest.
pub open spec fn resolved_fragment<
    L: FnOnce(&str) -> Result<Vec<Vec<u8>>, String>,
    I: FnOnce(&str) -> Result<CommandOutput, String>,
    P: FnOnce(&str) -> Result<Fragment, String>,
>(
    pull: L,
    inspect: I,
    parse: P,
    image_ref: Seq<char>,
    digest: Result<String, String>,
    r: Result<LoadedView, Seq<char>>,
) -> bool {
    match digest {
        Err(e) => r == Err::<LoadedView, Seq<char>>(e@),
        Ok(digest) => exists|layers: Result<Vec<Vec<u8>>, String>|
            {
                &&& oci::answers(pull, registry::pinned_text(image_ref, digest@), layers)
                &&& #[trigger] pulled_fragment(
                    inspect,
                    parse,
                    registry::pinned_text(image_ref, digest@),
                    digest@,
                    layers,
                    r,
                )
            },
    }
}

/// `r` is what a registry load of an image makes of it.
pub open spec fn registry_fragment<
    R: FnOnce(&str) -> Result<String, String>,
    L: FnOnce(&str) -> Result<Vec<Vec<u8>>, String>,
    I: FnOnce(&str) -> Result<CommandOutput, String>,
    P: FnOnce(&str) -> Result<Fragment, String>,
>(
    resolve: R,
    pull: L,
    inspect: I,
    parse: P,
    image_ref: Seq<char>,
    r: Result<LoadedView, Seq<char>>,
) -> bool {
    exists|digest: Result<String, String>|
        {
            &&& oci::answers(resolve, image_ref, digest)
            &&& #[trigger] resolved_fragment(pull, inspect, parse, image_ref, digest, r)
        }
}

/// Of what was pulled, only the first `fragment.toml` that can be read is
/// parsed, and the manifest is asked for only once the layers gave metadata.
pub open spec fn pulled_asks<
    I: FnOnce(&str) -> Result<CommandOutput, String>,
    P: FnOnce(&str) -> Result<Fragment, String>,
>(inspect: I, parse: P, image_ref: Seq<char>, layers: Seq<Vec<u8>>) -> bool {
    &&& toml_from(scanned_layers(layers), 0) matches Some(toml) ==> oci::may_ask(parse, toml)
    &&& forall|metadata: LayeredMetadata| #[trigger]
        layers_parsed(parse, layers, Ok(metadata)) ==> oci::may_ask(inspect, image_ref)
}

/// What a registry load asks for: the digest of the image, the layers of the
/// image pinned to that digest, and of these what [`pulled_asks`] says.
pub open spec fn load_asks<
    R: FnOnce(&str) -> Result<String, String>,
    L: FnOnce(&str) -> Result<Vec<Vec<u8>>, String>,
    I: FnOnce(&str) -> Result<CommandOutput, String>,
    P: FnOnce(&str) -> Result<Fragment, String>,
>(resolve: R, pull: L, inspect: I, parse: P, image_ref: Seq<char>) -> bool {
    &&& oci::may_ask(resolve, image_ref)
    &&& forall|digest: String| #[trigger]
        oci::answers(resolve, image_ref, Ok(digest)) ==> {
            let pinned = registry::pinned_text(image_ref, digest@);
            &&& oci::may_ask(pull, pinned)
            &&& forall|layers: Vec<Vec<u8>>| #[trigger]
                oci::answers(pull, pinned, Ok(layers)) ==> pulled_asks(
                    inspect,
                    parse,
                    pinned,
                    layers@,
                )
        }
}

/// Loads the fragment of a pinned image, given what pulling its layers gave.
fn load_pulled(
    image_ref: String,
    digest: String,
    layers: Result<Vec<Vec<u8>>, String>,
    inspect: impl FnOnce(&str) -> Result<CommandOutput, String>,
    parse: impl FnOnce(&str) -> Result<Fragment, String>,
) -> (r: Result<LoadedFragment, String>)
    requires
        layers matches Ok(layers) ==> pulled_asks(inspect, parse, image_ref@, layers@),
    ensures
        pulled_fragment(inspect, parse, image_ref@, digest@, layers, loaded_result(r)),
{
    let layers = match layers {
        Ok(layers) => layers,
        Err(e) => {
            return Err(e);
        },
    };
    let result = fragment_from_layers(&layers, parse);
    assert(layers_parsed(parse, layers@, result));
    let metadata = match result {
        Ok(metadata) => metadata,
        Err(e) => {
            return Err(e);
        },
    };
    let answer = inspect(image_ref.as_str());
    assert(oci::answers(inspect, image_ref@, answer));
    let claims = mount_claims(&answer);
    Ok(assemble_fragment(metadata, image_ref, digest, &claims))
}

/// Load a fragment from a registry: resolve its digest, pull the layers of
/// the image pinned to that digest, and gather what they hold.
///
/// The in-layer `fragment.toml` is always parsed for the authoritative
/// metadata. Annotations serve metadata-only reads alone, because they omit
/// fields like conflicts; here they are only held against the mount points
/// that the layers derive.
///
/// `resolve`, `pull` and `inspect` ask the registry for the digest, the layer
/// blobs and the manifest of an image; `parse` turns a `fragment.toml` into
/// the fragment it describes. Each is asked at most once: `resolve` for the
/// image, `pull` and `inspect` for the image pinned to its digest.
pub fn load_registry_fragment(
    image_ref: &str,
    resolve: impl FnOnce(&str) -> Result<String, String>,
    pull: impl FnOnce(&str) -> Result<Vec<Vec<u8>>, String>,
    inspect: impl FnOnce(&str) -> Result<CommandOutput, String>,
    parse: impl FnOnce(&str) -> Result<Fragment, String>,
) -> (r: Result<LoadedFragment, String>)
    requires
        load_asks(resolve, pull, inspect, parse, image_ref@),
    ensures
        registry_fragment(resolve, pull, inspect, parse, image_ref@, loaded_result(r)),
{
    let resolved = resolve(image_ref);
    assert(oci::answers(resolve, image_ref@, resolved));
    let ghost answer = resolved;
    let r = match resolved {
        Err(e) => Err(e),
        Ok(digest) => {
            let pinned = pinned_reference(image_ref, digest.as_str());
            let layers = pull(pinned.as_str());
            assert(oci::answers(pull, pinned@, layers));
            let ghost pulled = layers;
            let ghost at = pinned@;
            let ghost hash = digest@;
            let r = load_pulled(pinned, digest, layers, inspect, parse);
            assert(pulled_fragment(inspect, parse, at, hash, pulled, loaded_result(r)));
            r
        },
    };
    assert(resolved_fragment(pull, inspect, parse, image_ref@, answer, loaded_result(r)));
    r
}

/// The fragment that annotations describe, as a load gives it: its tree and
/// hooks are not known.
pub open spec fn loaded_from_annotations(
    fragment: FragmentView,
    mount_points: Seq<Seq<char>>,
    image_ref: Seq<char>,
    digest: Seq<char>,
) -> LoadedView {
    LoadedView {
        fragment,
        tree_paths: Seq::empty(),
        hook_paths: Seq::empty(),
        source: image_ref,
        resolved_digest: Some(digest),
        manifest_index: 0,
        repo_files: Map::empty(),
        mount_points,
        has_mount_dir: mount_points.len() > 0,
        drift_warning: None,
    }
}

/// `r` is what a metadata-only load of an image makes of it, given what
/// resolving its digest and asking for its manifest gave: what the
/// annotations describe, and where they describe nothing, a full load.
pub open spec fn inspected_fragment<
    R: FnOnce(&str) -> Result<String, String>,
    L: FnOnce(&str) -> Result<Vec<Vec<u8>>, String>,
    I: FnOnce(&str) -> Result<CommandOutput, String>,
    P: FnOnce(&str) -> Result<Fragment, String>,
>(
    resolve: R,
    pull: L,
    inspect: I,
    parse: P,
    image_ref: Seq<char>,
    digest: Seq<char>,
    manifest: Result<CommandOutput, String>,
    r: Result<LoadedView, Seq<char>>,
) -> bool {
    match manifest {
        Err(e) => r == Err::<LoadedView, Seq<char>>(e@),
        Ok(output) => match registry::fast_path(output) {
            Err(e) => r == Err::<LoadedView, Seq<char>>(e),
            Ok(Some((fragment, points))) => r == Ok::<LoadedView, Seq<char>>(
                loaded_from_annotations(
                    fragment,
                    points,
                    registry::pinned_text(image_ref, digest),
                    digest,
                ),
            ),
            Ok(None) => registry_fragment(resolve, pull, inspect, parse, image_ref, r),
        },
    }
}

/// `r` is what a metadata-only load of an image makes of it.
pub open spec fn metadata_fragment<
    R: FnOnce(&str) -> Result<String, String>,
    L: FnOnce(&str) -> Result<Vec<Vec<u8>>, String>,
    I: FnOnce(&str) -> Result<CommandOutput, String>,
    P: FnOnce(&str) -> Result<Fragment, String>,
>(
    resolve: R,
    pull: L,
    inspect: I,
    parse: P,
    image_ref: Seq<char>,
    r: Result<LoadedView, Seq<char>>,
) -> bool {
    exists|digest: Result<String, String>|
        {
            &&& #[trigger] oci::answers(resolve, image_ref, digest)
            &&& match digest {
                Err(e) => r == Err::<LoadedView, Seq<char>>(e@),
                Ok(digest) => exists|manifest: Result<CommandOutput, String>|
                    {
                        &&& oci::answers(inspect, image_ref, manifest)
                        &&& #[trigger] inspected_fragment(
                            resolve,
                            pull,
                            inspect,
                            parse,
                            image_ref,
                            digest@,
                            manifest,
                            r,
                        )
                    },
            }
        }
}

/// What a metadata-only load asks for: the digest and the manifest of the
/// image, and what a full load asks for only where the manifest's annotations
/// do not describe the fragment.
pub open spec fn metadata_asks<
    R: FnOnce(&str) -> Result<String, String>,
    L: FnOnce(&str) -> Result<Vec<Vec<u8>>, String>,
    I: FnOnce(&str) -> Result<CommandOutput, String>,
    P: FnOnce(&str) -> Result<Fragment, String>,
>(resolve: R, pull: L, inspect: I, parse: P, image_ref: Seq<char>) -> bool {
    &&& oci::may_ask(resolve, image_ref)
    &&& forall|digest: String| #[trigger]
        oci::answers(resolve, image_ref, Ok(digest)) ==> oci::may_ask(inspect, image_ref)
    &&& forall|output: CommandOutput| #[trigger]
        oci::answers(inspect, image_ref, Ok(output)) && registry::fast_path(output) == Ok::<
            Option<(FragmentView, Seq<Seq<char>>)>,
            Seq<char>,
        >(None) ==> load_asks(resolve, pull, inspect, parse, image_ref)
}

/// Metadata-only registry load for `list`.
///
/// Uses annotations to skip the layer pull entirely when possible, and falls
/// back to a full load when they do not describe the fragment. During
/// assembly the full load is always used: it parses the in-layer TOML, which
/// alone carries conflicts.
pub fn load_registry_fragment_metadata_only(
    image_ref: &str,
    resolve: impl Fn(&str) -> Result<String, String>,
    pull: impl FnOnce(&str) -> Result<Vec<Vec<u8>>, String>,
    inspect: impl Fn(&str) -> Result<CommandOutput, String>,
    parse: impl FnOnce(&str) -> Result<Fragment, String>,
) -> (r: Result<LoadedFragment, String>)
    requires
        metadata_asks(resolve, pull, inspect, parse, image_ref@),
    ensures
        metadata_fragment(resolve, pull, inspect, parse, image_ref@, loaded_result(r)),
{
    let resolved = resolve(image_ref);
    assert(oci::answers(resolve, image_ref@, resolved));
    let ghost answer = resolved;
    let digest = match resolved {
        Ok(digest) => digest,
        Err(e) => {
            return Err(e);
        },
    };
    let ghost hash = digest@;
    let manifest = inspect(image_ref);
    assert(oci::answers(inspect, image_ref@, manifest));
    let ghost asked = manifest;
    let r = match manifest {
        Err(e) => Err(e),
        Ok(output) => match try_annotation_fast_path(&output) {
            Err(e) => Err(e),
            Ok(Some(annotated)) => {
                let has_mount_dir = annotated.mount_points.len() > 0;
                let loaded = LoadedFragment {
                    fragment: annotated.fragment,
                    tree_paths: Vec::new(),
                    hook_paths: Vec::new(),
                    source: FragmentSource::Registry {
                        image_ref: pinned_reference(image_ref, digest.as_str()),
                    },
                    resolved_digest: Some(digest),
                    manifest_index: 0,
                    repo_file_contents: RepoFiles::new(),
                    mount_points: annotated.mount_points,
                    has_mount_dir,
                    drift_warning: None,
                };
                proof {
                    assert(text::texts(loaded.tree_paths@) =~= Seq::empty());
                    assert(text::texts(loaded.hook_paths@) =~= Seq::empty());
                }
                Ok(loaded)
            },
            Ok(None) => load_registry_fragment(image_ref, resolve, pull, inspect, parse),
        },
    };
    assert(inspected_fragment(
        resolve,
        pull,
        inspect,
        parse,
        image_ref@,
        hash,
        asked,
        loaded_result(r),
    ));
    r
}

/// Whether fragment digests (and the digest-pinned `FragmentSource`) should
/// survive [`load_all_fragments`] for use downstream.
///
/// `--pin-digests` keeps them for default mode's named-stage emission and
/// digest comments. `--self-contained` also needs them kept, independently
/// of `--pin-digests`: materialization must pull exactly the digest that was
/// validated, even though the emitted Containerfile never exposes that
/// digest.
pub fn should_keep_fragment_digests(pin_digests: bool, self_contained: Option<&str>) -> (r: bool)
    ensures
        r == (pin_digests || self_contained is Some),
{
    pin_digests || self_contained.is_some()
}

/// A loaded fragment in its place in the manifest. Unless digests are kept,
/// it goes by the image reference that the manifest declares.
pub open spec fn placed(
    loaded: LoadedView,
    declared: Seq<char>,
    index: int,
    keep_digests: bool,
) -> LoadedView {
    LoadedView {
        fragment: loaded.fragment,
        tree_paths: loaded.tree_paths,
        hook_paths: loaded.hook_paths,
        source: if keep_digests {
            loaded.source
        } else {
            declared
        },
        resolved_digest: if keep_digests {
            loaded.resolved_digest
        } else {
            None
        },
        manifest_index: index,
        repo_files: loaded.repo_files,
        mount_points: loaded.mount_points,
        has_mount_dir: loaded.has_mount_dir,
        drift_warning: loaded.drift_warning,
    }
}

/// Puts a loaded fragment in its place in the manifest.
pub fn place_fragment(
    loaded: LoadedFragment,
    declared: &str,
    index: usize,
    keep_digests: bool,
) -> (r: LoadedFragment)
    ensures
        r@ == placed(loaded@, declared@, index as int, keep_digests),
{
    let mut r = loaded;
    if !keep_digests {
        r.source = FragmentSource::Registry { image_ref: declared.to_owned() };
        r.resolved_digest = None;
    }
    r.manifest_index = index;
    r
}

/// The images that a manifest declares.
pub open spec fn declared_images(manifest: Manifest) -> Seq<Seq<char>> {
    manifest.fragments@.map_values(|f: manifest::ManifestFragment| f.image@)
}

/// What each load of a list gave.
pub open spec fn load_views(loads: Seq<Result<LoadedFragment, String>>) -> Seq<
    Result<LoadedView, Seq<char>>,
> {
    loads.map_values(|l: Result<LoadedFragment, String>| loaded_result(l))
}

/// The fragments of the images from place `i` on, behind those already
/// loaded, or why the first of them that is missing is: its image names a
/// local directory, or its load failed.
pub open spec fn fragments_from(
    images: Seq<Seq<char>>,
    keep_digests: bool,
    loads: Seq<Result<LoadedView, Seq<char>>>,
    i: int,
    fragments: Seq<LoadedView>,
) -> Result<Seq<LoadedView>, Seq<char>>
    decreases images.len() - i,
{
    if i >= images.len() {
        Ok(fragments)
    } else if manifest::directory_source(images[i]) {
        Err(manifest::ManifestError::DirectorySource.text())
    } else {
        match loads[i] {
            Err(e) => Err(e),
            Ok(loaded) => fragments_from(
                images,
                keep_digests,
                loads,
                i + 1,
                fragments.push(placed(loaded, images[i], i, keep_digests)),
            ),
        }
    }
}

/// The loads reach as far as fragments are loaded: to the last image, to one
/// that names a local directory, or to a failure.
pub open spec fn loaded_far_enough(
    images: Seq<Seq<char>>,
    loads: Seq<Result<LoadedFragment, String>>,
) -> bool {
    &&& loads.len() <= images.len()
    &&& loads.len() == images.len() || manifest::directory_source(images[loads.len() as int]) || (
    loads.len() > 0 && loads.last() is Err)
}

/// What loading every fragment gave.
pub open spec fn all_result(r: Result<Vec<LoadedFragment>, String>) -> Result<
    Seq<LoadedView>,
    Seq<char>,
> {
    match r {
        Ok(fragments) => Ok(loaded_views(fragments@)),
        Err(e) => Err(e@),
    }
}

/// The fragments of a manifest, given what loading them gave.
pub fn collect_fragments(
    manifest: &Manifest,
    keep_digests: bool,
    loads: Vec<Result<LoadedFragment, String>>,
) -> (r: Result<Vec<LoadedFragment>, String>)
    requires
        loaded_far_enough(declared_images(*manifest), loads@),
    ensures
        all_result(r) == fragments_from(
            declared_images(*manifest),
            keep_digests,
            load_views(loads@),
            0,
            Seq::empty(),
        ),
{
    let ghost images = declared_images(*manifest);
    let ghost given = loads@;
    let ghost views = load_views(given);
    let mut rest = loads;
    let mut fragments: Vec<LoadedFragment> = Vec::new();
    assert(loaded_views(fragments@) =~= Seq::empty());
    for i in 0..manifest.fragments.len()
        invariant
            images == declared_images(*manifest),
            given == loads@,
            views == load_views(given),
            loaded_far_enough(images, given),
            i <= given.len(),
            forall|j: int| 0 <= j < i ==> #[trigger] given[j] is Ok,
            rest@ == given.skip(i as int),
            fragments_from(images, keep_digests, views, 0, Seq::empty()) == fragments_from(
                images,
                keep_digests,
                views,
                i as int,
                loaded_views(fragments@),
            ),
    {
        assert(images[i as int] == manifest.fragments@[i as int].image@);
        let ghost before = loaded_views(fragments@);
        if let Err(e) = manifest.fragments[i].resolve_source() {
            return Err(e.message());
        }
        assert(i < given.len()) by {
            if i == given.len() {
                assert(given.len() > 0 ==> given[given.len() - 1] is Ok);
            }
        }
        let next = rest.remove(0);
        assert(next == given[i as int]);
        assert(rest@ =~= given.skip(i + 1));
        assert(views[i as int] == loaded_result(next));
        match next {
            Err(e) => {
                return Err(e);
            },
            Ok(loaded) => {
                let r = place_fragment(
                    loaded,
                    manifest.fragments[i].image.as_str(),
                    i,
                    keep_digests,
                );
                let ghost added = r@;
                fragments.push(r);
                assert(loaded_views(fragments@) =~= before.push(added));
            },
        }
    }
    Ok(fragments)
}

/// `r` is what the answers of `load` for the images of a manifest, in order,
/// make of it.
pub open spec fn fragments_loaded<F: Fn(&str) -> Result<LoadedFragment, String>>(
    load: F,
    images: Seq<Seq<char>>,
    keep_digests: bool,
    r: Result<Seq<LoadedView>, Seq<char>>,
) -> bool {
    exists|loads: Seq<Result<LoadedFragment, String>>|
        {
            &&& #[trigger] loaded_far_enough(images, loads)
            &&& forall|i: int|
                0 <= i < loads.len() ==> !manifest::directory_source(#[trigger] images[i])
                    && oci::answers(load, images[i], loads[i])
            &&& r == fragments_from(images, keep_digests, load_views(loads), 0, Seq::empty())
        }
}

/// `loads` are what `load` may answer for the first images, none of which
/// names a local directory, and all of them succeeded.
pub open spec fn loaded_so_far<F: Fn(&str) -> Result<LoadedFragment, String>>(
    load: F,
    images: Seq<Seq<char>>,
    loads: Seq<Result<LoadedFragment, String>>,
) -> bool {
    &&& loads.len() <= images.len()
    &&& forall|i: int|
        0 <= i < loads.len() ==> !manifest::directory_source(#[trigger] images[i])
            && oci::answers(load, images[i], loads[i]) && loads[i] is Ok
}

/// An image is asked for only once those before it are loaded, and only where
/// it does not name a local directory.
pub open spec fn asks_in_order<F: Fn(&str) -> Result<LoadedFragment, String>>(
    load: F,
    images: Seq<Seq<char>>,
) -> bool {
    forall|loads: Seq<Result<LoadedFragment, String>>| #[trigger]
        loaded_so_far(load, images, loads) && loads.len() < images.len()
            && !manifest::directory_source(images[loads.len() as int]) ==> oci::may_ask(
            load,
            images[loads.len() as int],
        )
}

/// Loads the fragments of a manifest in order, up to the first that is
/// missing.
#[verifier::spinoff_prover]
fn load_in_order(
    manifest: &Manifest,
    load: impl Fn(&str) -> Result<LoadedFragment, String>,
) -> (loads: Vec<Result<LoadedFragment, String>>)
    requires
        asks_in_order(load, declared_images(*manifest)),
    ensures
        loaded_far_enough(declared_images(*manifest), loads@),
        forall|i: int|
            0 <= i < loads@.len() ==> !manifest::directory_source(
                #[trigger] declared_images(*manifest)[i],
            ) && oci::answers(load, declared_images(*manifest)[i], loads@[i]),
{
    let ghost images = declared_images(*manifest);
    let mut loads: Vec<Result<LoadedFragment, String>> = Vec::new();
    for i in 0..manifest.fragments.len()
        invariant
            asks_in_order(load, images),
            images == declared_images(*manifest),
            loads@.len() == i,
            forall|j: int|
                0 <= j < i ==> !manifest::directory_source(#[trigger] images[j]) && oci::answers(
                    load,
                    images[j],
                    loads@[j],
                ) && loads@[j] is Ok,
    {
        assert(images[i as int] == manifest.fragments@[i as int].image@);
        if manifest.fragments[i].resolve_source().is_err() {
            return loads;
        }
        assert(loaded_so_far(load, images, loads@));
        let answer = load(manifest.fragments[i].image.as_str());
        assert(oci::answers(load, images[i as int], answer));
        let failed = answer.is_err();
        let ghost before = loads@;
        let ghost given = answer;
        loads.push(answer);
        assert forall|j: int| 0 <= j <= i implies !manifest::directory_source(#[trigger] images[j])
            && oci::answers(load, images[j], loads@[j]) by {
            if j < i {
                assert(loads@[j] == before[j]);
            } else {
                assert(loads@[j] == given);
            }
        }
        if failed {
            return loads;
        }
        assert forall|j: int| 0 <= j <= i implies (#[trigger] loads@[j]) is Ok by {
            if j < i {
                assert(!manifest::directory_source(images[j]));
                assert(loads@[j] == before[j]);
            }
        }
    }
    loads
}

/// Load every fragment the manifest names, in manifest order. `load` loads
/// the fragment of one image.
///
/// `keep_digests`: whether to leave each fragment's digest-pinned source and
/// resolved digest in place. See [`should_keep_fragment_digests`] for why
/// this isn't simply `--pin-digests`.
///
/// An image is loaded only after those before it were, and one that names a
/// local directory never is. Nothing is reordered: emission follows manifest order, which is user
/// intent.
pub fn load_all_fragments(
    manifest: &Manifest,
    keep_digests: bool,
    load: impl Fn(&str) -> Result<LoadedFragment, String>,
) -> (r: Result<Vec<LoadedFragment>, String>)
    requires
        asks_in_order(load, declared_images(*manifest)),
    ensures
        fragments_loaded(load, declared_images(*manifest), keep_digests, all_result(r)),
{
    let loads = load_in_order(manifest, load);
    collect_fragments(manifest, keep_digests, loads)
}

/// `fragment` is what a load gave, in its place.
spec fn is_placed(
    fragment: LoadedView,
    load: Result<LoadedView, Seq<char>>,
    image: Seq<char>,
    index: int,
    keep_digests: bool,
) -> bool {
    match load {
        Ok(loaded) => fragment == placed(loaded, image, index, keep_digests),
        Err(_) => false,
    }
}

/// What loading leaves of a list of fragments, from place `i` on.
proof fn lemma_fragments_from(
    images: Seq<Seq<char>>,
    keep_digests: bool,
    loads: Seq<Result<LoadedView, Seq<char>>>,
    i: int,
    fragments: Seq<LoadedView>,
)
    requires
        0 <= i <= images.len(),
        fragments.len() == i,
    ensures
        fragments_from(images, keep_digests, loads, i, fragments) matches Ok(all) ==> {
            &&& all.len() == images.len()
            &&& forall|k: int| 0 <= k < i ==> all[k] == #[trigger] fragments[k]
            &&& forall|k: int|
                i <= k < images.len() ==> is_placed(
                    #[trigger] all[k],
                    loads[k],
                    images[k],
                    k,
                    keep_digests,
                )
        },
    decreases images.len() - i,
{
    if i < images.len() && !manifest::directory_source(images[i]) {
        if let Ok(loaded) = loads[i] {
            let more = fragments.push(placed(loaded, images[i], i, keep_digests));
            lemma_fragments_from(images, keep_digests, loads, i + 1, more);
            assert(fragments_from(images, keep_digests, loads, i, fragments) == fragments_from(
                images,
                keep_digests,
                loads,
                i + 1,
                more,
            ));
            if let Ok(all) = fragments_from(images, keep_digests, loads, i, fragments) {
                assert forall|k: int| 0 <= k < i implies all[k] == #[trigger] fragments[k] by {
                    assert(more[k] == fragments[k]);
                }
                assert(all[i] == more[i]);
            }
        }
    }
}

/// Loading keeps manifest order: one fragment per entry, each carrying its
/// place and everything that was loaded of it. Digests survive exactly when
/// they are kept; else each fragment goes by the reference that the manifest
/// declares.
pub proof fn law_loading_follows_the_manifest(
    images: Seq<Seq<char>>,
    keep_digests: bool,
    loads: Seq<Result<LoadedView, Seq<char>>>,
)
    ensures
        fragments_from(images, keep_digests, loads, 0, Seq::empty()) matches Ok(all) ==> {
            &&& all.len() == images.len()
            &&& forall|i: int|
                0 <= i < all.len() ==> {
                    &&& (#[trigger] all[i]).manifest_index == i
                    &&& loads[i] matches Ok(loaded)
                    &&& all[i].fragment == loaded.fragment
                    &&& all[i].tree_paths == loaded.tree_paths
                    &&& all[i].hook_paths == loaded.hook_paths
                    &&& all[i].repo_files == loaded.repo_files
                    &&& all[i].mount_points == loaded.mount_points
                    &&& all[i].has_mount_dir == loaded.has_mount_dir
                    &&& all[i].drift_warning == loaded.drift_warning
                    &&& keep_digests ==> all[i].source == loaded.source && all[i].resolved_digest
                        == loaded.resolved_digest
                    &&& !keep_digests ==> all[i].source == images[i] && all[i].resolved_digest
                        is None
                }
        },
{
    lemma_fragments_from(images, keep_digests, loads, 0, Seq::empty());
    if let Ok(all) = fragments_from(images, keep_digests, loads, 0, Seq::empty()) {
        assert forall|i: int| 0 <= i < all.len() implies is_placed(
            #[trigger] all[i],
            loads[i],
            images[i],
            i,
            keep_digests,
        ) by {}
    }
}

/// `failure` is why the layers from place `i` on are not materialized, if
/// they are not, each being handed to `write` with what of it is written, in
/// order, up to the first failure.
pub open spec fn layers_written<W: Fn(&Vec<u8>, &PayloadPlan) -> Result<(), String>>(
    write: W,
    layers: Seq<Vec<u8>>,
    dest_dir: Seq<char>,
    mounts: MountMaterialization,
    i: int,
    failure: Option<Seq<char>>,
) -> bool
    decreases layers.len() - i,
{
    if i >= layers.len() {
        failure is None
    } else {
        match layer::layer_payload(layer::layer_members(layers[i]@), dest_dir, mounts) {
            Err(e) => failure == Some(e),
            Ok(planned) => exists|plan: &PayloadPlan, written: Result<(), String>|
                {
                    &&& plan@ == planned
                    &&& #[trigger] call_ensures(write, (&layers[i], plan), written)
                    &&& match written {
                        Err(e) => failure == Some(e@),
                        Ok(_) => match planned.1 {
                            Some(f) => failure == Some(f),
                            None => layers_written(
                                write,
                                layers,
                                dest_dir,
                                mounts,
                                i + 1,
                                failure,
                            ),
                        },
                    }
                },
        }
    }
}

/// What keeps layers from being materialized, if anything does.
pub open spec fn failure_of(r: Result<(), String>) -> Option<Seq<char>> {
    match r {
        Ok(_) => None,
        Err(e) => Some(e@),
    }
}

/// The layers before place `i` were handed to `write`, each with what of it
/// is written, and all of that succeeded.
pub open spec fn layers_done<W: Fn(&Vec<u8>, &PayloadPlan) -> Result<(), String>>(
    write: W,
    layers: Seq<Vec<u8>>,
    dest_dir: Seq<char>,
    mounts: MountMaterialization,
    i: int,
) -> bool {
    forall|k: int| 0 <= k < i ==> layer_done(write, #[trigger] layers[k], dest_dir, mounts)
}

/// A layer was handed to `write` with what of it is written, and all of that
/// succeeded.
pub open spec fn layer_done<W: Fn(&Vec<u8>, &PayloadPlan) -> Result<(), String>>(
    write: W,
    layer: Vec<u8>,
    dest_dir: Seq<char>,
    mounts: MountMaterialization,
) -> bool {
    exists|plan: &PayloadPlan|
        {
            &&& plans_layer(*plan, layer, dest_dir, mounts)
            &&& #[trigger] call_ensures(write, (&layer, plan), Ok(()))
            &&& plan.failure is None
        }
}

/// The plan is that of the layer.
pub open spec fn plans_layer(
    plan: PayloadPlan,
    layer: Vec<u8>,
    dest_dir: Seq<char>,
    mounts: MountMaterialization,
) -> bool {
    layer::layer_payload(layer::layer_members(layer@), dest_dir, mounts) == Ok::<
        (Seq<(int, Seq<char>, Option<Seq<char>>)>, Option<Seq<char>>),
        Seq<char>,
    >(plan@)
}

/// A layer is written only as its plan says, and only once those before it
/// are.
pub open spec fn writes_in_order<W: Fn(&Vec<u8>, &PayloadPlan) -> Result<(), String>>(
    write: W,
    layers: Seq<Vec<u8>>,
    dest_dir: Seq<char>,
    mounts: MountMaterialization,
) -> bool {
    forall|i: int, plan: &PayloadPlan|
        0 <= i < layers.len() && layers_done(write, layers, dest_dir, mounts, i) && plans_layer(
            *plan,
            layers[i],
            dest_dir,
            mounts,
        ) ==> #[trigger] call_requires(write, (&layers[i], plan))
}

/// Materializes the layers from place `i` on, up to the first failure.
fn write_layers<W: Fn(&Vec<u8>, &PayloadPlan) -> Result<(), String>>(
    layers: &Vec<Vec<u8>>,
    i: usize,
    dest_dir: &str,
    mounts: MountMaterialization,
    write: &W,
) -> (r: Result<(), String>)
    requires
        i <= layers@.len(),
        writes_in_order(*write, layers@, dest_dir@, mounts),
        layers_done(*write, layers@, dest_dir@, mounts, i as int),
    ensures
        layers_written(*write, layers@, dest_dir@, mounts, i as int, failure_of(r)),
    decreases layers@.len() - i,
{
    if i == layers.len() {
        return Ok(());
    }
    let plan = match plan_fragment_payload(layers[i].as_slice(), dest_dir, mounts) {
        Ok(plan) => plan,
        Err(e) => {
            return Err(e);
        },
    };
    assert(plans_layer(plan, layers@[i as int], dest_dir@, mounts));
    assert(call_requires(*write, (&layers@[i as int], &plan)));
    let written = write(&layers[i], &plan);
    assert(call_ensures(*write, (&layers[i as int], &plan), written));
    if let Err(e) = written {
        return Err(e);
    }
    if let Some(failure) = &plan.failure {
        return Err(failure.clone());
    }
    proof {
        let unit = written->Ok_0;
        assert(unit == ());
        assert(layer_done(*write, layers@[i as int], dest_dir@, mounts));
    }
    write_layers(layers, i + 1, dest_dir, mounts, write)
}

/// Pull a fragment image by reference and materialize its payload to disk
/// under `dest_dir`, layer by layer. `write` writes what of a layer the plan
/// names; it is handed a layer only once those before it are written.
///
/// On `Err`, `dest_dir` may contain partially written files from an earlier
/// layer or an earlier entry within the failing layer; callers must treat it
/// as unusable rather than a valid partial result.
pub fn materialize_fragment<
    L: FnOnce(&str) -> Result<Vec<Vec<u8>>, String>,
    W: Fn(&Vec<u8>, &PayloadPlan) -> Result<(), String>,
>(
    image_ref: &str,
    dest_dir: &str,
    mounts: MountMaterialization,
    pull: L,
    write: W,
) -> (r: Result<(), String>)
    requires
        oci::may_ask(pull, image_ref@),
        forall|layers: Vec<Vec<u8>>| #[trigger]
            oci::answers(pull, image_ref@, Ok(layers)) ==> writes_in_order(
                write,
                layers@,
                dest_dir@,
                mounts,
            ),
    ensures
        exists|pulled: Result<Vec<Vec<u8>>, String>|
            {
                &&& #[trigger] oci::answers(pull, image_ref@, pulled)
                &&& match pulled {
                    Err(e) => failure_of(r) == Some(e@),
                    Ok(layers) => layers_written(
                        write,
                        layers@,
                        dest_dir@,
                        mounts,
                        0,
                        failure_of(r),
                    ),
                }
            },
{
    let pulled = pull(image_ref);
    assert(oci::answers(pull, image_ref@, pulled));
    match pulled {
        Err(e) => Err(e),
        Ok(layers) => write_layers(&layers, 0, dest_dir, mounts, &write),
    }
}

/// An annotation that lists exactly the targets of a fragment's mount points
/// is read back as those mount points, and raises no warning.
pub proof fn law_matching_annotation_raises_no_warning(
    fragment_name: Seq<char>,
    points: Seq<Seq<char>>,
    files: Seq<Seq<char>>,
)
    requires
        mount::derived_from(points, files),
        mount::misplaced_file(files) is None,
    ensures
        registry::named_points(mount::target_texts(points)) == MountAnnotationView::Points(points),
        claim_drift(
            fragment_name,
            registry::named_points(mount::target_texts(points)),
            points,
        ) is None,
{
    let targets = mount::target_texts(points);
    assert forall|i: int| 0 <= i < targets.len() implies mount::usable_target(
        #[trigger] targets[i],
    ) && targets[i].skip(1) == points[i] by {
        assert(points.contains(points[i]));
        mount::law_derived_targets_are_usable(points, files, points[i]);
    }
    assert(targets.map_values(|t: Seq<char>| t.skip(1)) =~= points);
}

/// Of a list of paths those below a directory, as seen from there.
pub open spec fn below(paths: Seq<Seq<char>>, dir: Seq<char>) -> Seq<Seq<char>> {
    paths.filter(|p: Seq<char>| (dir + seq!['/']).is_prefix_of(p)).map_values(
        |p: Seq<char>| p.skip(dir.len() as int + 1),
    )
}

/// Of a list of paths those of the fragment, as seen from its directory, which
/// a regular file of that name is itself.
pub open spec fn in_fragment(paths: Seq<Seq<char>>) -> Seq<Seq<char>> {
    paths.filter(
        |p: Seq<char>| p == "fragment"@ || ("fragment"@ + seq!['/']).is_prefix_of(p),
    ).map_values(
        |p: Seq<char>|
            if p == "fragment"@ {
                Seq::empty()
            } else {
                p.skip(9)
            },
    )
}

/// The paths that were listed of a layer.
pub open spec fn listed_paths(scan: ScanView) -> Seq<Seq<char>> {
    scan.listing->Ok_0.paths
}

/// What layers list is known by relative paths of ordinary names.
pub open spec fn lists_plain_paths(scan: ScanView) -> bool {
    scan.listing matches Ok(l) ==> forall|i: int|
        0 <= i < l.paths.len() ==> (#[trigger] l.paths[i]).len() == 0 || path::ordinary_path(
            l.paths[i],
        )
}

proof fn lemma_remapped_below(paths: Seq<Seq<char>>, dir: Seq<char>)
    requires
        path::ordinary_path(dir),
        forall|i: int|
            0 <= i < paths.len() ==> (#[trigger] paths[i]).len() == 0 || path::ordinary_path(
                paths[i],
            ),
    ensures
        remapped(paths, dir + seq!['/'], dir) == below(paths, dir),
    decreases paths.len(),
{
    let wanted = |p: Seq<char>| (dir + seq!['/']).is_prefix_of(p);
    let seen = |p: Seq<char>| p.skip(dir.len() as int + 1);
    reveal(Seq::filter);
    if paths.len() > 0 {
        let front = paths.drop_last();
        let last = paths.last();
        assert forall|i: int| 0 <= i < front.len() implies (#[trigger] front[i]).len() == 0
            || path::ordinary_path(front[i]) by {
            assert(front[i] == paths[i]);
        }
        lemma_remapped_below(front, dir);
        assert(paths[paths.len() - 1] == last);
        if wanted(last) {
            let rel = last.skip(dir.len() as int + 1);
            assert(dir + seq!['/'] =~= last.subrange(0, dir.len() as int + 1));
            assert(last =~= dir + seq!['/'] + rel);
            path::lemma_ordinary_rest(dir, rel);
            path::law_stripping_leaves_what_stands_behind(dir, rel);
            assert(remapped(paths, dir + seq!['/'], dir) == remapped(front, dir + seq!['/'], dir).push(
                rel,
            ));
            assert(paths.filter(wanted) == front.filter(wanted).push(last));
            assert(below(paths, dir) =~= below(front, dir).push(rel));
        } else {
            assert(below(paths, dir) =~= below(front, dir));
        }
    } else {
        assert(below(paths, dir) =~= Seq::empty());
    }
}

proof fn lemma_remapped_fragment(paths: Seq<Seq<char>>)
    requires
        forall|i: int|
            0 <= i < paths.len() ==> (#[trigger] paths[i]).len() == 0 || path::ordinary_path(
                paths[i],
            ),
    ensures
        remapped(paths, ""@, "fragment"@) == in_fragment(paths),
    decreases paths.len(),
{
    let dir = "fragment"@;
    let wanted = |p: Seq<char>| p == dir || (dir + seq!['/']).is_prefix_of(p);
    reveal(Seq::filter);
    reveal_strlit("");
    reveal_strlit("fragment");
    layer::lemma_fragment_dirs();
    if paths.len() > 0 {
        let front = paths.drop_last();
        let last = paths.last();
        assert forall|i: int| 0 <= i < front.len() implies (#[trigger] front[i]).len() == 0
            || path::ordinary_path(front[i]) by {
            assert(front[i] == paths[i]);
        }
        lemma_remapped_fragment(front);
        assert(paths[paths.len() - 1] == last);
        assert(""@.is_prefix_of(last)) by {
            assert(""@ =~= last.subrange(0, 0));
        }
        if last == dir {
            path::law_stripping_leaves_what_stands_behind(dir, dir);
            assert(paths.filter(wanted) == front.filter(wanted).push(last));
            assert(in_fragment(paths) =~= in_fragment(front).push(Seq::empty()));
        } else if wanted(last) {
            let rel = last.skip(9);
            assert(dir + seq!['/'] =~= last.subrange(0, 9));
            assert(last =~= dir + seq!['/'] + rel);
            path::lemma_ordinary_rest(dir, rel);
            path::law_stripping_leaves_what_stands_behind(dir, rel);
            assert(paths.filter(wanted) == front.filter(wanted).push(last));
            assert(in_fragment(paths) =~= in_fragment(front).push(rel));
        } else {
            if last.len() > 0 {
                path::law_stripping_leaves_what_stands_behind(dir, last);
            } else {
                path::lemma_ordinary_path(dir);
                assert(path::names(last) =~= Seq::empty());
                assert(path::stripped(last, dir) is None);
            }
            assert(in_fragment(paths) =~= in_fragment(front));
        }
    } else {
        assert(in_fragment(paths) =~= Seq::empty());
    }
}

/// What is gathered from the layers from place `i` on, path by path.
proof fn lemma_gathered_paths(
    scans: Seq<ScanView>,
    failure: Option<Seq<char>>,
    i: int,
    g: Gathered,
)
    requires
        0 <= i <= scans.len(),
        forall|k: int| 0 <= k < scans.len() ==> lists_plain_paths(#[trigger] scans[k]),
    ensures
        gather_from(scans, failure, i, g) matches Ok(all) ==> {
            &&& all.tree_paths == g.tree_paths + scans.skip(i).map_values(
                |s: ScanView| in_fragment(listed_paths(s)),
            ).flatten()
            &&& all.hook_paths == g.hook_paths + scans.skip(i).map_values(
                |s: ScanView| below(listed_paths(s), "fragment/hooks"@),
            ).flatten()
            &&& all.mount_files == g.mount_files + scans.skip(i).map_values(
                |s: ScanView| below(listed_paths(s), "fragment/mount"@),
            ).flatten()
        },
    decreases scans.len() - i,
{
    let tree = |s: ScanView| in_fragment(listed_paths(s));
    let hooks = |s: ScanView| below(listed_paths(s), "fragment/hooks"@);
    let mounts = |s: ScanView| below(listed_paths(s), "fragment/mount"@);
    let rest = scans.skip(i);
    if let Ok(all) = gather_from(scans, failure, i, g) {
        if i >= scans.len() {
            assert(rest.map_values(tree) =~= Seq::empty());
            assert(rest.map_values(hooks) =~= Seq::empty());
            assert(rest.map_values(mounts) =~= Seq::empty());
            assert(all.tree_paths =~= g.tree_paths + rest.map_values(tree).flatten());
            assert(all.hook_paths =~= g.hook_paths + rest.map_values(hooks).flatten());
            assert(all.mount_files =~= g.mount_files + rest.map_values(mounts).flatten());
        } else {
            let listing = scans[i].listing->Ok_0;
            let next = gathered_with(g, scans[i].toml is Ok, listing, scans[i].repos->Ok_0);
            lemma_gathered_paths(scans, failure, i + 1, next);
            let more = scans.skip(i + 1);
            assert(rest.map_values(tree).drop_first() =~= more.map_values(tree));
            assert(rest.map_values(hooks).drop_first() =~= more.map_values(hooks));
            assert(rest.map_values(mounts).drop_first() =~= more.map_values(mounts));
            assert(lists_plain_paths(scans[i]));
            layer::lemma_fragment_dirs();
            lemma_remapped_fragment(listing.paths);
            lemma_remapped_below(listing.paths, "fragment/hooks"@);
            lemma_remapped_below(listing.paths, "fragment/mount"@);
            reveal_strlit("fragment/hooks/");
            reveal_strlit("fragment/mount/");
            reveal_strlit("fragment/hooks");
            reveal_strlit("fragment/mount");
            assert("fragment/hooks/"@ =~= "fragment/hooks"@ + seq!['/']);
            assert("fragment/mount/"@ =~= "fragment/mount"@ + seq!['/']);
            assert(all.tree_paths =~= g.tree_paths + rest.map_values(tree).flatten());
            assert(all.hook_paths =~= g.hook_paths + rest.map_values(hooks).flatten());
            assert(all.mount_files =~= g.mount_files + rest.map_values(mounts).flatten());
        }
    }
}

/// What is gathered from the layers from place `i` on, but for paths.
proof fn lemma_gathered_rest(
    scans: Seq<ScanView>,
    failure: Option<Seq<char>>,
    i: int,
    g: Gathered,
)
    requires
        0 <= i <= scans.len(),
    ensures
        gather_from(scans, failure, i, g) is Ok <==> {
            &&& forall|k: int|
                i <= k < scans.len() ==> (#[trigger] scans[k]).listing is Ok && scans[k].repos
                    is Ok
            &&& failure is Some && !g.has_toml ==> forall|k: int|
                i <= k < scans.len() ==> (#[trigger] scans[k]).toml is Err
        },
        gather_from(scans, failure, i, g) matches Ok(all) ==> {
            &&& all.has_toml <==> g.has_toml || exists|k: int|
                i <= k < scans.len() && (#[trigger] scans[k]).toml is Ok
            &&& all.has_mount_dir <==> g.has_mount_dir || exists|k: int|
                i <= k < scans.len() && (#[trigger] scans[k]).listing->Ok_0.has_mount_dir
            &&& forall|name: Seq<char>|
                {
                    ||| (exists|k: int|
                        {
                            &&& i <= k < scans.len()
                            &&& (#[trigger] scans[k]).repos->Ok_0.contains_key(name)
                            &&& all.repo_files.contains_key(name)
                            &&& all.repo_files[name] == scans[k].repos->Ok_0[name]
                            &&& forall|j: int|
                                k < j < scans.len() ==> !(
                                #[trigger] scans[j]).repos->Ok_0.contains_key(name)
                        })
                    ||| {
                        &&& forall|k: int|
                            i <= k < scans.len() ==> !(
                            #[trigger] scans[k]).repos->Ok_0.contains_key(name)
                        &&& #[trigger] all.repo_files.contains_key(name)
                            == g.repo_files.contains_key(name)
                        &&& all.repo_files.contains_key(name) ==> all.repo_files[name]
                            == g.repo_files[name]
                    }
                }
        },
    decreases scans.len() - i,
{
    if i < scans.len() {
        if let (Ok(listing), Ok(repos)) = (scans[i].listing, scans[i].repos) {
            let next = gathered_with(g, scans[i].toml is Ok, listing, repos);
            lemma_gathered_rest(scans, failure, i + 1, next);
            if let Ok(all) = gather_from(scans, failure, i, g) {
                assert forall|name: Seq<char>|
                    {
                        ||| (exists|k: int|
                            {
                                &&& i <= k < scans.len()
                                &&& (#[trigger] scans[k]).repos->Ok_0.contains_key(name)
                                &&& all.repo_files.contains_key(name)
                                &&& all.repo_files[name] == scans[k].repos->Ok_0[name]
                                &&& forall|j: int|
                                    k < j < scans.len() ==> !(
                                    #[trigger] scans[j]).repos->Ok_0.contains_key(name)
                            })
                        ||| {
                            &&& forall|k: int|
                                i <= k < scans.len() ==> !(
                                #[trigger] scans[k]).repos->Ok_0.contains_key(name)
                            &&& #[trigger] all.repo_files.contains_key(name)
                                == g.repo_files.contains_key(name)
                            &&& all.repo_files.contains_key(name) ==> all.repo_files[name]
                                == g.repo_files[name]
                        }
                    } by {
                    let there = all.repo_files.contains_key(name);
                    if forall|k: int|
                        i + 1 <= k < scans.len() ==> !(
                        #[trigger] scans[k]).repos->Ok_0.contains_key(name) {
                        assert(all.repo_files.contains_key(name) == next.repo_files.contains_key(
                            name,
                        ));
                        if repos.contains_key(name) {
                            assert(scans[i].repos->Ok_0.contains_key(name));
                            assert(next.repo_files[name] == repos[name]);
                        }
                    }
                }
            }
        }
    }
}

/// What a load gives holds everything that its layers list: the paths of the
/// fragment of all layers, one layer after the other and each in its order,
/// seen from `fragment/`; the files of `fragment/hooks/` of all layers, each as
/// often as it is listed and in path order; and the mount points of the files
/// of `fragment/mount/` of all layers.
pub proof fn law_load_keeps_every_listed_path(
    scans: Seq<LayerScan>,
    parsed: Option<Result<Fragment, String>>,
    m: LayeredMetadata,
)
    requires
        metadata_of(scan_views(scans), parsed, Ok(m)),
        forall|k: int| 0 <= k < scans.len() ==> lists_plain_paths((#[trigger] scans[k])@),
    ensures
        ({
            let listed = |s: LayerScan| text::texts(s.listing->Ok_0.paths@);
            &&& text::texts(m.tree_paths@) == scans.map_values(
                |s: LayerScan| in_fragment(listed(s)),
            ).flatten()
            &&& text::texts(m.hook_paths@).to_multiset() == scans.map_values(
                |s: LayerScan| below(listed(s), "fragment/hooks"@),
            ).flatten().to_multiset()
            &&& forall|i: int, j: int|
                0 <= i < j < m.hook_paths@.len() ==> !path::path_before(
                    (#[trigger] m.hook_paths@[j])@,
                    (#[trigger] m.hook_paths@[i])@,
                )
            &&& mount::derived_from(
                mount::point_paths(m.mount_points@),
                scans.map_values(
                    |s: LayerScan| below(listed(s), "fragment/mount"@),
                ).flatten(),
            )
        }),
{
    let views = scan_views(scans);
    let listed = |s: LayerScan| text::texts(s.listing->Ok_0.paths@);
    assert forall|k: int| 0 <= k < views.len() implies lists_plain_paths(#[trigger] views[k]) by {
        assert(lists_plain_paths(scans[k]@));
    }
    lemma_gathered_paths(views, parse_failure(parsed), 0, nothing_gathered());
    lemma_gathered_rest(views, parse_failure(parsed), 0, nothing_gathered());
    let g = gather_from(views, parse_failure(parsed), 0, nothing_gathered())->Ok_0;
    assert(views.skip(0) =~= views);
    assert forall|k: int| 0 <= k < scans.len() implies listed_paths(views[k]) == listed(
        #[trigger] scans[k],
    ) by {
        assert(views[k] == scans[k]@);
        assert(views[k].listing is Ok);
    }
    assert(views.map_values(|s: ScanView| in_fragment(listed_paths(s))) =~= scans.map_values(
        |s: LayerScan| in_fragment(listed(s)),
    ));
    assert(views.map_values(|s: ScanView| below(listed_paths(s), "fragment/hooks"@))
        =~= scans.map_values(|s: LayerScan| below(listed(s), "fragment/hooks"@)));
    assert(views.map_values(|s: ScanView| below(listed_paths(s), "fragment/mount"@))
        =~= scans.map_values(|s: LayerScan| below(listed(s), "fragment/mount"@)));
    let nothing = Seq::<Seq<char>>::empty();
    let tree = scans.map_values(|s: LayerScan| in_fragment(listed(s))).flatten();
    let hooks = scans.map_values(|s: LayerScan| below(listed(s), "fragment/hooks"@)).flatten();
    let mounts = scans.map_values(|s: LayerScan| below(listed(s), "fragment/mount"@)).flatten();
    assert(nothing + tree =~= tree);
    assert(nothing + hooks =~= hooks);
    assert(nothing + mounts =~= mounts);
    path::law_sorting_orders_the_same_entries(ListOrder::Paths, hooks);
    let shown = text::texts(m.hook_paths@);
    assert forall|i: int, j: int| 0 <= i < j < m.hook_paths@.len() implies !path::path_before(
        (#[trigger] m.hook_paths@[j])@,
        (#[trigger] m.hook_paths@[i])@,
    ) by {
        assert(shown[i] == m.hook_paths@[i]@);
        assert(shown[j] == m.hook_paths@[j]@);
        assert(!path::sorts_before(ListOrder::Paths, shown[j], shown[i]));
    }
}

/// Later layers shadow earlier ones, and every layer counts: a load holds a
/// `.repo` file under a name exactly when some layer does, with what the last
/// of these holds, and a `mount/` directory exactly when some layer does. The
/// fragment is what `fragment.toml` describes.
pub proof fn law_later_layers_shadow_earlier_ones(
    scans: Seq<LayerScan>,
    parsed: Option<Result<Fragment, String>>,
    m: LayeredMetadata,
)
    requires
        metadata_of(scan_views(scans), parsed, Ok(m)),
    ensures
        parsed == Some(Ok::<Fragment, String>(m.fragment)),
        m.has_mount_dir <==> exists|k: int|
            0 <= k < scans.len() && (#[trigger] scans[k]).listing->Ok_0.has_mount_dir,
        forall|name: Seq<char>|
            #![trigger m.repo_file_contents@.contains_key(name)]
            m.repo_file_contents@.contains_key(name) <==> exists|k: int|
                0 <= k < scans.len() && (#[trigger] scans[k]).repos->Ok_0@.contains_key(name),
        forall|name: Seq<char>, k: int|
            {
                &&& 0 <= k < scans.len()
                &&& #[trigger] scans[k].repos->Ok_0@.contains_key(name)
                &&& forall|j: int|
                    k < j < scans.len() ==> !(#[trigger] scans[j]).repos->Ok_0@.contains_key(name)
            } ==> m.repo_file_contents@[name] == scans[k].repos->Ok_0@[name],
{
    let views = scan_views(scans);
    lemma_gathered_rest(views, parse_failure(parsed), 0, nothing_gathered());
    let g = gather_from(views, parse_failure(parsed), 0, nothing_gathered())->Ok_0;
    assert forall|k: int| 0 <= k < scans.len() implies {
        &&& (#[trigger] views[k]).repos->Ok_0 == scans[k].repos->Ok_0@
        &&& views[k].listing->Ok_0.has_mount_dir == scans[k].listing->Ok_0.has_mount_dir
    } by {
        assert(views[k] == scans[k]@);
        assert(views[k].listing is Ok && views[k].repos is Ok);
    }
    if m.has_mount_dir {
        let k = choose|k: int|
            0 <= k < views.len() && (#[trigger] views[k]).listing->Ok_0.has_mount_dir;
        assert(scans[k].listing->Ok_0.has_mount_dir);
    }
    if exists|k: int|
        0 <= k < scans.len() && (#[trigger] scans[k]).listing->Ok_0.has_mount_dir {
        let k = choose|k: int|
            0 <= k < scans.len() && (#[trigger] scans[k]).listing->Ok_0.has_mount_dir;
        assert(views[k].listing->Ok_0.has_mount_dir);
    }
    assert forall|name: Seq<char>|
        #![trigger m.repo_file_contents@.contains_key(name)]
        m.repo_file_contents@.contains_key(name) <==> exists|k: int|
            0 <= k < scans.len() && (#[trigger] scans[k]).repos->Ok_0@.contains_key(name) by {
        let there = g.repo_files.contains_key(name);
        if there {
            let k = choose|k: int|
                0 <= k < views.len() && (#[trigger] views[k]).repos->Ok_0.contains_key(name);
            assert(views[k].repos->Ok_0.contains_key(name));
            assert(scans[k].repos->Ok_0@.contains_key(name));
        }
        if exists|k: int|
            0 <= k < scans.len() && (#[trigger] scans[k]).repos->Ok_0@.contains_key(name) {
            let k = choose|k: int|
                0 <= k < scans.len() && (#[trigger] scans[k]).repos->Ok_0@.contains_key(name);
            assert(views[k].repos->Ok_0.contains_key(name));
        }
    }
    assert forall|name: Seq<char>, k: int|
        {
            &&& 0 <= k < scans.len()
            &&& #[trigger] scans[k].repos->Ok_0@.contains_key(name)
            &&& forall|j: int|
                k < j < scans.len() ==> !(#[trigger] scans[j]).repos->Ok_0@.contains_key(name)
        } implies m.repo_file_contents@[name] == scans[k].repos->Ok_0@[name] by {
        let there = g.repo_files.contains_key(name);
        assert(views[k].repos->Ok_0.contains_key(name));
        let last = choose|last: int|
            {
                &&& 0 <= last < views.len()
                &&& (#[trigger] views[last]).repos->Ok_0.contains_key(name)
                &&& g.repo_files.contains_key(name)
                &&& g.repo_files[name] == views[last].repos->Ok_0[name]
                &&& forall|j: int|
                    last < j < views.len() ==> !(#[trigger] views[j]).repos->Ok_0.contains_key(
                        name,
                    )
            };
        if last < k {
            assert(!views[k].repos->Ok_0.contains_key(name));
        }
        if k < last {
            assert(!scans[last].repos->Ok_0@.contains_key(name));
        }
    }
}

/// A load succeeds exactly when every layer can be listed and its `.repo`
/// files read, some layer has a `fragment.toml` and the first one describes a
/// fragment, hooks come with an entrypoint that can be run, and no mount file
/// is misplaced. The entrypoint that counts is that of the last layer that
/// carries one; it can be run when one of its three execute bits is set.
pub proof fn law_load_succeeds_exactly_when(
    scans: Seq<LayerScan>,
    parsed: Option<Result<Fragment, String>>,
    r: Result<LayeredMetadata, String>,
)
    requires
        metadata_of(scan_views(scans), parsed, r),
        forall|k: int| 0 <= k < scans.len() ==> lists_plain_paths((#[trigger] scans[k])@),
    ensures
        ({
            let listed = |s: LayerScan| text::texts(s.listing->Ok_0.paths@);
            let hooks = scans.map_values(
                |s: LayerScan| below(listed(s), "fragment/hooks"@),
            ).flatten();
            let mounts = scans.map_values(
                |s: LayerScan| below(listed(s), "fragment/mount"@),
            ).flatten();
            r is Ok <==> {
                &&& forall|k: int|
                    0 <= k < scans.len() ==> (#[trigger] scans[k]).listing is Ok && scans[k].repos
                        is Ok
                &&& exists|k: int| 0 <= k < scans.len() && (#[trigger] scans[k]).toml is Ok
                &&& parsed matches Some(Ok(_))
                &&& hooks.len() > 0 ==> exists|k: int, mode: u32|
                    {
                        &&& 0 <= k < scans.len()
                        &&& #[trigger] scans[k].listing->Ok_0.entrypoint_mode == Some(mode)
                        &&& #[trigger] (mode & 0o111u32) != 0
                        &&& forall|j: int|
                            k < j < scans.len() ==> (
                            #[trigger] scans[j]).listing->Ok_0.entrypoint_mode is None
                    }
                &&& forall|i: int| 0 <= i < mounts.len() ==> !mount::misplaced(#[trigger] mounts[i])
            }
        }),
{
    let views = scan_views(scans);
    let listed = |s: LayerScan| text::texts(s.listing->Ok_0.paths@);
    let failure = parse_failure(parsed);
    assert forall|k: int| 0 <= k < views.len() implies lists_plain_paths(#[trigger] views[k]) by {
        assert(lists_plain_paths(scans[k]@));
    }
    assert forall|k: int| 0 <= k < scans.len() implies {
        &&& (#[trigger] views[k]).listing is Ok <==> scans[k].listing is Ok
        &&& views[k].repos is Ok <==> scans[k].repos is Ok
        &&& views[k].toml is Ok <==> scans[k].toml is Ok
    } by {
        assert(views[k] == scans[k]@);
    }
    lemma_gathered_paths(views, failure, 0, nothing_gathered());
    lemma_gathered_rest(views, failure, 0, nothing_gathered());
    lemma_last_entrypoint(views, failure, 0, nothing_gathered());
    if exists|k: int| 0 <= k < scans.len() && (#[trigger] scans[k]).toml is Ok {
        let k = choose|k: int| 0 <= k < scans.len() && (#[trigger] scans[k]).toml is Ok;
        assert(views[k].toml is Ok);
    }
    if let Ok(g) = gather_from(views, failure, 0, nothing_gathered()) {
        assert forall|k: int| 0 <= k < scans.len() implies (#[trigger] scans[k]).listing is Ok
            && scans[k].repos is Ok by {
            assert(views[k].listing is Ok && views[k].repos is Ok);
        }
        assert(views.skip(0) =~= views);
        assert forall|k: int| 0 <= k < scans.len() implies listed_paths(views[k]) == listed(
            #[trigger] scans[k],
        ) && views[k].listing->Ok_0.entrypoint_mode == scans[k].listing->Ok_0.entrypoint_mode by {
            assert(views[k] == scans[k]@);
        }
        assert(views.map_values(|s: ScanView| below(listed_paths(s), "fragment/hooks"@))
            =~= scans.map_values(|s: LayerScan| below(listed(s), "fragment/hooks"@)));
        assert(views.map_values(|s: ScanView| below(listed_paths(s), "fragment/mount"@))
            =~= scans.map_values(|s: LayerScan| below(listed(s), "fragment/mount"@)));
        let hooks = scans.map_values(|s: LayerScan| below(listed(s), "fragment/hooks"@)).flatten();
        let mounts = scans.map_values(|s: LayerScan| below(listed(s), "fragment/mount"@)).flatten();
        assert(g.hook_paths =~= hooks);
        assert(g.mount_files =~= mounts);
        mount::lemma_misplaced_file(mounts);
        if g.entrypoint_mode matches Some(mode) && mode & EXECUTE_BITS != 0 {
            let mode = g.entrypoint_mode->0;
            let k = choose|k: int|
                {
                    &&& 0 <= k < views.len()
                    &&& carries_entrypoint(#[trigger] views[k], g.entrypoint_mode)
                    &&& forall|j: int|
                        k < j < views.len() ==> carries_entrypoint(#[trigger] views[j], None)
                };
            assert(scans[k].listing->Ok_0.entrypoint_mode == Some(mode));
            assert(mode & 0o111u32 != 0);
            assert forall|j: int| k < j < scans.len() implies (
            #[trigger] scans[j]).listing->Ok_0.entrypoint_mode is None by {
                assert(carries_entrypoint(views[j], None));
            }
        }
        if exists|k: int, mode: u32|
            {
                &&& 0 <= k < scans.len()
                &&& #[trigger] scans[k].listing->Ok_0.entrypoint_mode == Some(mode)
                &&& #[trigger] (mode & 0o111u32) != 0
                &&& forall|j: int|
                    k < j < scans.len() ==> (
                    #[trigger] scans[j]).listing->Ok_0.entrypoint_mode is None
            } {
            let (k, mode) = choose|k: int, mode: u32|
                {
                    &&& 0 <= k < scans.len()
                    &&& #[trigger] scans[k].listing->Ok_0.entrypoint_mode == Some(mode)
                    &&& #[trigger] (mode & 0o111u32) != 0
                    &&& forall|j: int|
                        k < j < scans.len() ==> (
                        #[trigger] scans[j]).listing->Ok_0.entrypoint_mode is None
                };
            assert(carries_entrypoint(views[k], Some(mode)));
            assert(g.entrypoint_mode == Some(mode)) by {
                if g.entrypoint_mode is None {
                    assert(carries_entrypoint(views[k], None));
                } else {
                    let last = choose|last: int|
                        {
                            &&& 0 <= last < views.len()
                            &&& carries_entrypoint(#[trigger] views[last], g.entrypoint_mode)
                            &&& forall|j: int|
                                last < j < views.len() ==> carries_entrypoint(
                                    #[trigger] views[j],
                                    None,
                                )
                        };
                    if last < k {
                        assert(carries_entrypoint(views[k], None));
                    }
                    if k < last {
                        assert(scans[last].listing->Ok_0.entrypoint_mode is None);
                    }
                }
            }
        }
    } else {
        if forall|k: int|
            0 <= k < scans.len() ==> (#[trigger] scans[k]).listing is Ok && scans[k].repos is Ok {
            assert forall|k: int| 0 <= k < views.len() implies (#[trigger] views[k]).listing is Ok
                && views[k].repos is Ok by {
                assert(scans[k].listing is Ok);
            }
            assert(failure is Some);
        }
    }
}

/// Layers as they are read list plain paths only, and the `fragment.toml`
/// that is parsed is that of the first layer that has one.
pub proof fn law_layers_list_plain_paths(layers: Seq<Vec<u8>>)
    ensures
        forall|k: int|
            0 <= k < layers.len() ==> lists_plain_paths(#[trigger] scanned_layers(layers)[k]),
        toml_from(scanned_layers(layers), 0) is None <==> forall|k: int|
            0 <= k < layers.len() ==> (#[trigger] scanned_layers(layers)[k]).toml is Err,
        toml_from(scanned_layers(layers), 0) matches Some(toml) ==> exists|k: int|
            {
                &&& 0 <= k < layers.len()
                &&& (#[trigger] scanned_layers(layers)[k]).toml == Ok::<Seq<char>, Seq<char>>(toml)
                &&& forall|j: int|
                    0 <= j < k ==> (#[trigger] scanned_layers(layers)[j]).toml is Err
            },
{
    let scans = scanned_layers(layers);
    lemma_toml_from(scans, 0);
    assert forall|k: int| 0 <= k < layers.len() implies lists_plain_paths(#[trigger] scans[k]) by {
        if let Ok(members) = layer::layer_members(layers[k]@) {
            layer::law_listing_holds_every_regular_file(members);
            if let Ok(l) = scans[k].listing {
                let regular = |m: Result<layer::MemberView, Seq<char>>| layer::regular_member(m);
                let files = members.filter(regular);
                assert forall|i: int| 0 <= i < l.paths.len() implies (#[trigger] l.paths[i]).len()
                    == 0 || path::ordinary_path(l.paths[i]) by {
                    let m = files[i];
                    assert(l.paths[i] == layer::accepted_path(m)->0);
                    assert(files.contains(m));
                    members.lemma_filter_contains_rev(regular, m);
                    let j = choose|j: int| 0 <= j < members.len() && members[j] == m;
                    assert(layer::accepted_path(members[j]) is Some);
                    layer::law_accepted_members(m->Ok_0.path, m->Ok_0.kind);
                }
            }
        }
    }
}

proof fn lemma_toml_from(scans: Seq<ScanView>, i: int)
    requires
        0 <= i <= scans.len(),
    ensures
        toml_from(scans, i) is None <==> forall|k: int|
            i <= k < scans.len() ==> (#[trigger] scans[k]).toml is Err,
        toml_from(scans, i) matches Some(toml) ==> exists|k: int|
            {
                &&& i <= k < scans.len()
                &&& (#[trigger] scans[k]).toml == Ok::<Seq<char>, Seq<char>>(toml)
                &&& forall|j: int| i <= j < k ==> (#[trigger] scans[j]).toml is Err
            },
    decreases scans.len() - i,
{
    if i < scans.len() {
        if scans[i].toml is Err {
            lemma_toml_from(scans, i + 1);
        } else {
            assert(scans[i].toml == Ok::<Seq<char>, Seq<char>>(toml_from(scans, i)->0));
        }
    }
}

/// A fragment that carries hooks is accepted exactly when its entrypoint is a
/// regular file with one of the three execute bits set.
pub proof fn law_entrypoint_must_be_executable(
    fragment_name: Seq<char>,
    entrypoint_mode: Option<u32>,
)
    ensures
        entrypoint_failure(fragment_name, entrypoint_mode) is None <==> (entrypoint_mode matches Some(
            mode,
        ) && mode & 0o111u32 != 0),
        entrypoint_failure(fragment_name, None) == Some(
            "fragment '"@ + fragment_name
                + "': hooks/ contains files but no executable hooks/entrypoint; the entrypoint is the single file osfragment-assemble runs. Rename the script to hooks/entrypoint, or add one that invokes the others."@,
        ),
        entrypoint_mode is Some && entrypoint_failure(fragment_name, entrypoint_mode) is Some
            ==> entrypoint_failure(fragment_name, entrypoint_mode) == Some(
            "fragment '"@ + fragment_name
                + "': hooks/entrypoint is not executable; the entrypoint is the single file osfragment-assemble runs. Set the execute bit (chmod +x) before building the fragment image."@,
        ),
{
}

/// The paths of a fragment's tree are split by where they lie: what sets up a
/// repository on the one side, every other path below `tree/` on the other,
/// each side in order.
pub proof fn law_tree_is_split_by_place(paths: Seq<Seq<char>>)
    ensures
        split_part(paths, true) == paths.filter(
            |p: Seq<char>|
                "tree/etc/yum.repos.d/"@.is_prefix_of(p) || "tree/etc/pki/rpm-gpg/"@.is_prefix_of(p),
        ),
        split_part(paths, false) == paths.filter(
            |p: Seq<char>|
                "tree/"@.is_prefix_of(p) && !"tree/etc/yum.repos.d/"@.is_prefix_of(p)
                    && !"tree/etc/pki/rpm-gpg/"@.is_prefix_of(p),
        ),
    decreases paths.len(),
{
    reveal(Seq::filter);
    if paths.len() > 0 {
        law_tree_is_split_by_place(paths.drop_last());
        let p = paths.last();
        lemma_longer_prefix(p, "tree/etc/yum.repos.d/"@);
        lemma_longer_prefix(p, "tree/etc/pki/rpm-gpg/"@);
    }
}

proof fn lemma_longer_prefix(p: Seq<char>, longer: Seq<char>)
    requires
        longer == "tree/etc/yum.repos.d/"@ || longer == "tree/etc/pki/rpm-gpg/"@,
    ensures
        longer.is_prefix_of(p) ==> "tree/"@.is_prefix_of(p),
{
    reveal_strlit("tree/");
    reveal_strlit("tree/etc/yum.repos.d/");
    reveal_strlit("tree/etc/pki/rpm-gpg/");
    if longer.is_prefix_of(p) {
        assert(longer =~= p.subrange(0, longer.len() as int));
        assert forall|i: int| 0 <= i < 5 implies p[i] == "tree/"@[i] by {
            assert(longer[i] == p.subrange(0, longer.len() as int)[i]);
        }
        assert("tree/"@ =~= p.subrange(0, 5));
    }
}

/// What the mounts annotation of an image says is read from its manifest,
/// under the annotation's own key, and from nowhere else.
pub proof fn law_claims_come_from_the_annotation(answer: Result<CommandOutput, String>)
    ensures
        ({
            let annotations = registry::annotations_of(
                crate::json::object_members(answer->Ok_0.stdout@),
            );
            let read = answer is Ok && answer->Ok_0.success && annotations is Ok;
            let claim = crate::json::string_member(
                annotations->Ok_0,
                "com.github.marrusl.osfragment.mounts"@,
            );
            &&& claimed_mounts(answer) is Absent <==> !read || claim is None
            &&& read && claim is Some ==> claimed_mounts(answer) == match crate::json::string_list(
                claim->0,
            ) {
                Some(targets) => registry::named_points(targets),
                None => MountAnnotationView::Unusable,
            }
        }),
{
    if let Ok(output) = answer {
        if let Ok(annotations) = registry::annotations_of(
            crate::json::object_members(output.stdout@),
        ) {
            if let Some(claim) = crate::json::string_member(
                annotations,
                "com.github.marrusl.osfragment.mounts"@,
            ) {
                if let Some(targets) = crate::json::string_list(claim) {
                    registry::law_targets_name_mount_points(targets);
                }
            }
        }
    }
}

/// A registry load gives the fragment of the image that it resolved: the
/// digest that was resolved for the image is the one that it carries and that
/// its source is pinned to, the layers of exactly that image are what its
/// metadata, its tree, its hooks, its `.repo` files and its mount points come
/// from, and a warning is carried exactly where the annotation of that image
/// names other mount points.
pub proof fn law_registry_load_is_of_the_resolved_image<
    R: FnOnce(&str) -> Result<String, String>,
    L: FnOnce(&str) -> Result<Vec<Vec<u8>>, String>,
    I: FnOnce(&str) -> Result<CommandOutput, String>,
    P: FnOnce(&str) -> Result<Fragment, String>,
>(
    resolve: R,
    pull: L,
    inspect: I,
    parse: P,
    image_ref: Seq<char>,
    loaded: LoadedFragment,
)
    requires
        registry_fragment(resolve, pull, inspect, parse, image_ref, Ok(loaded@)),
    ensures
        exists|
            digest: String,
            layers: Vec<Vec<u8>>,
            m: LayeredMetadata,
            answer: Result<CommandOutput, String>,
        |
            {
                let pinned = registry::image_parts(image_ref).0 + "@"@ + digest@;
                let points = mount::point_paths(m.mount_points@);
                &&& #[trigger] oci::answers(resolve, image_ref, Ok::<String, String>(digest))
                &&& oci::answers(pull, pinned, Ok::<Vec<Vec<u8>>, String>(layers))
                &&& #[trigger] layers_parsed(parse, layers@, Ok(m))
                &&& #[trigger] oci::answers(
                    inspect,
                    registry::image_parts(image_ref).0 + "@"@ + digest@,
                    answer,
                )
                &&& loaded.fragment@ == m.fragment@
                &&& text::texts(loaded.tree_paths@) == text::texts(m.tree_paths@)
                &&& text::texts(loaded.hook_paths@) == text::texts(m.hook_paths@)
                &&& loaded.source.image() == pinned
                &&& text::opt_text(loaded.resolved_digest) == Some(digest@)
                &&& loaded.repo_file_contents@ == m.repo_file_contents@
                &&& mount::point_paths(loaded.mount_points@) == points
                &&& loaded.has_mount_dir == m.has_mount_dir
                &&& text::opt_text(loaded.drift_warning) == match claimed_mounts(answer) {
                    MountAnnotationView::Points(annotated) => mount::drift(
                        m.fragment.name@,
                        annotated,
                        points,
                    ),
                    _ => None,
                }
            },
{
    let r = Ok::<LoadedView, Seq<char>>(loaded@);
    let digest_answer = choose|digest: Result<String, String>|
        {
            &&& oci::answers(resolve, image_ref, digest)
            &&& #[trigger] resolved_fragment(pull, inspect, parse, image_ref, digest, r)
        };
    let digest = digest_answer->Ok_0;
    assert(digest_answer == Ok::<String, String>(digest));
    let pinned = registry::pinned_text(image_ref, digest@);
    let pulled = choose|layers: Result<Vec<Vec<u8>>, String>|
        {
            &&& oci::answers(pull, pinned, layers)
            &&& #[trigger] pulled_fragment(inspect, parse, pinned, digest@, layers, r)
        };
    let layers = pulled->Ok_0;
    assert(pulled == Ok::<Vec<Vec<u8>>, String>(layers));
    let metadata = choose|metadata: Result<LayeredMetadata, String>|
        {
            &&& #[trigger] layers_parsed(parse, layers@, metadata)
            &&& match metadata {
                Err(e) => r == Err::<LoadedView, Seq<char>>(e@),
                Ok(metadata) => exists|answer: Result<CommandOutput, String>|
                    {
                        &&& #[trigger] oci::answers(inspect, pinned, answer)
                        &&& r == Ok::<LoadedView, Seq<char>>(
                            loaded_from(metadata, pinned, digest@, claimed_mounts(answer)),
                        )
                    },
            }
        };
    let m = metadata->Ok_0;
    assert(metadata == Ok::<LayeredMetadata, String>(m));
    let answer = choose|answer: Result<CommandOutput, String>|
        {
            &&& #[trigger] oci::answers(inspect, pinned, answer)
            &&& r == Ok::<LoadedView, Seq<char>>(
                loaded_from(m, pinned, digest@, claimed_mounts(answer)),
            )
        };
    assert(loaded@ == loaded_from(m, pinned, digest@, claimed_mounts(answer)));
    assert(pinned == registry::image_parts(image_ref).0 + "@"@ + digest@);
    assert(oci::answers(resolve, image_ref, Ok::<String, String>(digest)));
    assert(layers_parsed(parse, layers@, Ok(m)));
    assert(oci::answers(inspect, registry::image_parts(image_ref).0 + "@"@ + digest@, answer));
}

/// A metadata-only load gives what the annotations of the image's manifest
/// describe, pinned to the digest that was resolved and with nothing of what
/// only layers can tell, or where they describe nothing, what a full load
/// gives.
pub proof fn law_metadata_only_load_takes_annotations<
    R: FnOnce(&str) -> Result<String, String>,
    L: FnOnce(&str) -> Result<Vec<Vec<u8>>, String>,
    I: FnOnce(&str) -> Result<CommandOutput, String>,
    P: FnOnce(&str) -> Result<Fragment, String>,
>(
    resolve: R,
    pull: L,
    inspect: I,
    parse: P,
    image_ref: Seq<char>,
    loaded: LoadedFragment,
)
    requires
        metadata_fragment(resolve, pull, inspect, parse, image_ref, Ok(loaded@)),
    ensures
        exists|digest: String, output: CommandOutput|
            {
                &&& #[trigger] oci::answers(resolve, image_ref, Ok::<String, String>(digest))
                &&& #[trigger] oci::answers(
                    inspect,
                    image_ref,
                    Ok::<CommandOutput, String>(output),
                )
                &&& match registry::fast_path(output) {
                    Ok(Some(both)) => {
                        &&& loaded.fragment@ == both.0
                        &&& mount::point_paths(loaded.mount_points@) == both.1
                        &&& loaded.has_mount_dir <==> both.1.len() > 0
                        &&& loaded.source.image() == registry::image_parts(image_ref).0 + "@"@
                            + digest@
                        &&& text::opt_text(loaded.resolved_digest) == Some(digest@)
                        &&& loaded.tree_paths@.len() == 0
                        &&& loaded.hook_paths@.len() == 0
                        &&& loaded.repo_file_contents@ == Map::<Seq<char>, Seq<char>>::empty()
                        &&& loaded.drift_warning is None
                    },
                    Ok(None) => registry_fragment(
                        resolve,
                        pull,
                        inspect,
                        parse,
                        image_ref,
                        Ok(loaded@),
                    ),
                    Err(_) => false,
                }
            },
{
    let r = Ok::<LoadedView, Seq<char>>(loaded@);
    let digest_answer = choose|digest: Result<String, String>|
        {
            &&& #[trigger] oci::answers(resolve, image_ref, digest)
            &&& match digest {
                Err(e) => r == Err::<LoadedView, Seq<char>>(e@),
                Ok(digest) => exists|manifest: Result<CommandOutput, String>|
                    {
                        &&& oci::answers(inspect, image_ref, manifest)
                        &&& #[trigger] inspected_fragment(
                            resolve,
                            pull,
                            inspect,
                            parse,
                            image_ref,
                            digest@,
                            manifest,
                            r,
                        )
                    },
            }
        };
    let digest = digest_answer->Ok_0;
    assert(digest_answer == Ok::<String, String>(digest));
    let manifest = choose|manifest: Result<CommandOutput, String>|
        {
            &&& oci::answers(inspect, image_ref, manifest)
            &&& #[trigger] inspected_fragment(
                resolve,
                pull,
                inspect,
                parse,
                image_ref,
                digest@,
                manifest,
                r,
            )
        };
    let output = manifest->Ok_0;
    assert(manifest == Ok::<CommandOutput, String>(output));
    assert(text::texts(loaded.tree_paths@).len() == loaded.tree_paths@.len());
    assert(text::texts(loaded.hook_paths@).len() == loaded.hook_paths@.len());
    if let Ok(Some(both)) = registry::fast_path(output) {
        assert(loaded@ == loaded_from_annotations(
            both.0,
            both.1,
            registry::pinned_text(image_ref, digest@),
            digest@,
        ));
    }
    assert(oci::answers(resolve, image_ref, Ok::<String, String>(digest)));
    assert(oci::answers(inspect, image_ref, Ok::<CommandOutput, String>(output)));
}

/// The image can be loaded from a registry, and was.
pub open spec fn image_loads(image: Seq<char>, load: Result<LoadedView, Seq<char>>) -> bool {
    !"dir:"@.is_prefix_of(image) && load is Ok
}

proof fn lemma_fragments_all_load(
    images: Seq<Seq<char>>,
    keep_digests: bool,
    loads: Seq<Result<LoadedView, Seq<char>>>,
    i: int,
    fragments: Seq<LoadedView>,
)
    requires
        0 <= i <= images.len(),
    ensures
        fragments_from(images, keep_digests, loads, i, fragments) is Ok ==> forall|k: int|
            i <= k < images.len() ==> image_loads(#[trigger] images[k], loads[k]),
        fragments_from(images, keep_digests, loads, i, fragments) is Err ==> exists|k: int|
            i <= k < images.len() && !image_loads(#[trigger] images[k], loads[k]),
    decreases images.len() - i,
{
    if i < images.len() {
        if image_loads(images[i], loads[i]) {
            let more = fragments.push(placed(loads[i]->Ok_0, images[i], i, keep_digests));
            lemma_fragments_all_load(images, keep_digests, loads, i + 1, more);
            assert(!manifest::directory_source(images[i]));
        } else {
            assert(!image_loads(images[i], loads[i]));
        }
    }
}

/// Every fragment of a manifest loads or none does: the result is a list
/// exactly when no image names a local directory and each of them loads.
pub proof fn law_all_fragments_load_or_none(
    images: Seq<Seq<char>>,
    keep_digests: bool,
    loads: Seq<Result<LoadedView, Seq<char>>>,
)
    ensures
        fragments_from(images, keep_digests, loads, 0, Seq::empty()) is Ok <==> forall|k: int|
            0 <= k < images.len() ==> image_loads(#[trigger] images[k], loads[k]),
{
    lemma_fragments_all_load(images, keep_digests, loads, 0, Seq::empty());
}

/// A fragment is materialized only where every layer is: each is handed over
/// with a plan of all that is written of it, and both the writing and the
/// plan succeed.
pub proof fn law_every_layer_is_materialized<W: Fn(&Vec<u8>, &PayloadPlan) -> Result<(), String>>(
    write: W,
    layers: Seq<Vec<u8>>,
    dest_dir: Seq<char>,
    mounts: MountMaterialization,
    i: int,
)
    requires
        0 <= i,
        layers_written(write, layers, dest_dir, mounts, i, None),
    ensures
        forall|k: int|
            i <= k < layers.len() ==> {
                &&& layer::layer_payload(
                    layer::layer_members((#[trigger] layers[k])@),
                    dest_dir,
                    mounts,
                ) matches Ok(planned)
                &&& planned.1 is None
                &&& exists|plan: &PayloadPlan, written: Result<(), String>|
                    plan@ == planned && written is Ok && #[trigger] call_ensures(
                        write,
                        (&layers[k], plan),
                        written,
                    )
            },
    decreases layers.len() - i,
{
    if i < layers.len() {
        let planned = layer::layer_payload(
            layer::layer_members(layers[i]@),
            dest_dir,
            mounts,
        )->Ok_0;
        law_every_layer_is_materialized(write, layers, dest_dir, mounts, i + 1);
    }
}

/// What a load from layers gives holds everything that the archives of the
/// layers hold: the paths of the fragment of every layer, one layer after the
/// other; every hook, as often as it is there; the mount points of every mount
/// file; and of the `.repo` files of every layer the last of each name. The
/// fragment is what the first `fragment.toml` describes.
pub proof fn law_load_from_layers_keeps_everything<
    P: FnOnce(&str) -> Result<Fragment, String>,
>(parse: P, layers: Seq<Vec<u8>>, m: LayeredMetadata)
    requires
        layers_parsed(parse, layers, Ok(m)),
    ensures
        ({
            let listed = |l: Vec<u8>| layer::layer_listing(layer::layer_members(l@))->Ok_0;
            let toml = |l: Vec<u8>| layer::layer_toml(l@, layer::layer_members(l@));
            let repos = |l: Vec<u8>| layer::layer_repos(l@, layer::layer_members(l@))->Ok_0;
            &&& forall|k: int|
                0 <= k < layers.len() ==> layer::layer_listing(
                    layer::layer_members((#[trigger] layers[k])@),
                ) is Ok
            &&& text::texts(m.tree_paths@) == layers.map_values(
                |l: Vec<u8>| in_fragment(listed(l).paths),
            ).flatten()
            &&& text::texts(m.hook_paths@).to_multiset() == layers.map_values(
                |l: Vec<u8>| below(listed(l).paths, "fragment/hooks"@),
            ).flatten().to_multiset()
            &&& mount::derived_from(
                mount::point_paths(m.mount_points@),
                layers.map_values(
                    |l: Vec<u8>| below(listed(l).paths, "fragment/mount"@),
                ).flatten(),
            )
            &&& m.has_mount_dir <==> exists|k: int|
                0 <= k < layers.len() && listed(#[trigger] layers[k]).has_mount_dir
            &&& forall|name: Seq<char>|
                #![trigger m.repo_file_contents@.contains_key(name)]
                m.repo_file_contents@.contains_key(name) <==> exists|k: int|
                    0 <= k < layers.len() && repos(#[trigger] layers[k]).contains_key(name)
            &&& forall|name: Seq<char>|
                #![trigger m.repo_file_contents@.contains_key(name)]
                m.repo_file_contents@.contains_key(name) ==> exists|k: int|
                    {
                        &&& 0 <= k < layers.len()
                        &&& repos(#[trigger] layers[k]).contains_key(name)
                        &&& repos(layers[k])[name] == m.repo_file_contents@[name]
                        &&& forall|j: int|
                            k < j < layers.len() ==> !repos(#[trigger] layers[j]).contains_key(
                                name,
                            )
                    }
            &&& exists|k: int|
                {
                    &&& 0 <= k < layers.len()
                    &&& toml(#[trigger] layers[k]) is Ok
                    &&& oci::answers(
                        parse,
                        toml(layers[k])->Ok_0,
                        Ok::<Fragment, String>(m.fragment),
                    )
                    &&& forall|j: int| 0 <= j < k ==> toml(#[trigger] layers[j]) is Err
                }
        }),
{
    let scans = scanned_layers(layers);
    let r = Ok::<LayeredMetadata, String>(m);
    law_layers_list_plain_paths(layers);
    let parsed = match toml_from(scans, 0) {
        None => None,
        Some(toml) => Some(
            choose|parsed: Result<Fragment, String>|
                {
                    &&& oci::answers(parse, toml, parsed)
                    &&& #[trigger] metadata_of(scans, Some(parsed), r)
                },
        ),
    };
    assert(metadata_of(scans, parsed, r));
    let failure = parse_failure(parsed);
    assert forall|k: int| 0 <= k < scans.len() implies lists_plain_paths(#[trigger] scans[k]) by {}
    lemma_gathered_paths(scans, failure, 0, nothing_gathered());
    lemma_gathered_rest(scans, failure, 0, nothing_gathered());
    let g = gather_from(scans, failure, 0, nothing_gathered())->Ok_0;
    let listed = |l: Vec<u8>| layer::layer_listing(layer::layer_members(l@))->Ok_0;
    let toml = |l: Vec<u8>| layer::layer_toml(l@, layer::layer_members(l@));
    let repos = |l: Vec<u8>| layer::layer_repos(l@, layer::layer_members(l@))->Ok_0;
    assert forall|k: int| 0 <= k < layers.len() implies {
        &&& scans[k].listing == layer::layer_listing(layer::layer_members((#[trigger] layers[k])@))
        &&& scans[k].listing is Ok
        &&& scans[k].toml == toml(layers[k])
        &&& scans[k].repos->Ok_0 == repos(layers[k])
    } by {
        assert(scans[k] == scanned(layers[k]@));
    }
    assert(scans.skip(0) =~= scans);
    assert(scans.map_values(|s: ScanView| in_fragment(listed_paths(s))) =~= layers.map_values(
        |l: Vec<u8>| in_fragment(listed(l).paths),
    ));
    assert(scans.map_values(|s: ScanView| below(listed_paths(s), "fragment/hooks"@))
        =~= layers.map_values(|l: Vec<u8>| below(listed(l).paths, "fragment/hooks"@)));
    assert(scans.map_values(|s: ScanView| below(listed_paths(s), "fragment/mount"@))
        =~= layers.map_values(|l: Vec<u8>| below(listed(l).paths, "fragment/mount"@)));
    let tree = layers.map_values(|l: Vec<u8>| in_fragment(listed(l).paths)).flatten();
    let hooks = layers.map_values(
        |l: Vec<u8>| below(listed(l).paths, "fragment/hooks"@),
    ).flatten();
    let mounts = layers.map_values(
        |l: Vec<u8>| below(listed(l).paths, "fragment/mount"@),
    ).flatten();
    assert(g.tree_paths =~= tree);
    assert(g.hook_paths =~= hooks);
    assert(g.mount_files =~= mounts);
    path::law_sorting_orders_the_same_entries(ListOrder::Paths, hooks);
    if m.has_mount_dir {
        let k = choose|k: int|
            0 <= k < scans.len() && (#[trigger] scans[k]).listing->Ok_0.has_mount_dir;
        assert(listed(layers[k]).has_mount_dir);
    }
    if exists|k: int| 0 <= k < layers.len() && listed(#[trigger] layers[k]).has_mount_dir {
        let k = choose|k: int|
            0 <= k < layers.len() && listed(#[trigger] layers[k]).has_mount_dir;
        assert(scans[k].listing->Ok_0.has_mount_dir);
    }
    assert forall|name: Seq<char>|
        #![trigger m.repo_file_contents@.contains_key(name)]
        m.repo_file_contents@.contains_key(name) <==> exists|k: int|
            0 <= k < layers.len() && repos(#[trigger] layers[k]).contains_key(name) by {
        let there = g.repo_files.contains_key(name);
        if there {
            let k = choose|k: int|
                0 <= k < scans.len() && (#[trigger] scans[k]).repos->Ok_0.contains_key(name);
            assert(scans[k].repos->Ok_0.contains_key(name));
            assert(repos(layers[k]).contains_key(name));
        }
        if exists|k: int| 0 <= k < layers.len() && repos(#[trigger] layers[k]).contains_key(name) {
            let k = choose|k: int|
                0 <= k < layers.len() && repos(#[trigger] layers[k]).contains_key(name);
            assert(scans[k].repos->Ok_0.contains_key(name));
        }
    }
    assert forall|name: Seq<char>|
        #![trigger m.repo_file_contents@.contains_key(name)]
        m.repo_file_contents@.contains_key(name) implies exists|k: int|
        {
            &&& 0 <= k < layers.len()
            &&& repos(#[trigger] layers[k]).contains_key(name)
            &&& repos(layers[k])[name] == m.repo_file_contents@[name]
            &&& forall|j: int|
                k < j < layers.len() ==> !repos(#[trigger] layers[j]).contains_key(name)
        } by {
        let there = g.repo_files.contains_key(name);
        let k = choose|k: int|
            {
                &&& 0 <= k < scans.len()
                &&& (#[trigger] scans[k]).repos->Ok_0.contains_key(name)
                &&& g.repo_files.contains_key(name)
                &&& g.repo_files[name] == scans[k].repos->Ok_0[name]
                &&& forall|j: int|
                    k < j < scans.len() ==> !(#[trigger] scans[j]).repos->Ok_0.contains_key(name)
            };
        assert(repos(layers[k]).contains_key(name));
        assert forall|j: int| k < j < layers.len() implies !repos(
            #[trigger] layers[j],
        ).contains_key(name) by {
            assert(!scans[j].repos->Ok_0.contains_key(name));
        }
    }
    let first = toml_from(scans, 0)->0;
    let k = choose|k: int|
        {
            &&& 0 <= k < layers.len()
            &&& (#[trigger] scans[k]).toml == Ok::<Seq<char>, Seq<char>>(first)
            &&& forall|j: int| 0 <= j < k ==> (#[trigger] scans[j]).toml is Err
        };
    assert(toml(layers[k]) is Ok);
    assert forall|j: int| 0 <= j < k implies toml(#[trigger] layers[j]) is Err by {
        assert(scans[j].toml is Err);
    }
}

/// A load that fails says why: with the message of the first layer that cannot
/// be read, with that of a `fragment.toml` that describes no fragment, or that
/// there is none; and once all that is read, with what is wrong with the hooks
/// entrypoint, or with the first mount file that is misplaced.
pub proof fn law_failed_load_says_why(
    scans: Seq<ScanView>,
    parsed: Option<Result<Fragment, String>>,
    e: String,
)
    requires
        metadata_of(scans, parsed, Err(e)),
    ensures
        ({
            ||| exists|k: int|
                {
                    &&& 0 <= k < scans.len()
                    &&& (#[trigger] scans[k]).listing == Err::<ListingView, Seq<char>>(e@) || (
                    scans[k].listing is Ok && scans[k].repos == Err::<
                        Map<Seq<char>, Seq<char>>,
                        Seq<char>,
                    >(e@))
                    &&& forall|j: int|
                        0 <= j < k ==> (#[trigger] scans[j]).listing is Ok && scans[j].repos is Ok
                }
            ||| (parsed matches Some(Err(f)) && f@ == e@)
            ||| !(parsed matches Some(Ok(_)) && exists|k: int|
                0 <= k < scans.len() && (#[trigger] scans[k]).toml is Ok) && e@
                == "no layer containing fragment/fragment.toml found in image"@
            ||| (parsed matches Some(Ok(fragment)) && {
                ||| exists|mode: Option<u32>|
                    #[trigger] entrypoint_failure(fragment.name@, mode) == Some(e@)
                ||| exists|file: Seq<char>|
                    mount::misplaced(file) && #[trigger] mount::misplaced_text(
                        fragment.name@,
                        file,
                    ) == e@
            })
        }),
{
    let failure = parse_failure(parsed);
    lemma_gather_failure(scans, failure, 0, nothing_gathered());
    lemma_gathered_rest(scans, failure, 0, nothing_gathered());
    if let Ok(g) = gather_from(scans, failure, 0, nothing_gathered()) {
        if let Some(Ok(fragment)) = parsed {
            if g.has_toml {
                let name = fragment.name@;
                mount::lemma_misplaced_file(g.mount_files);
                if g.hook_paths.len() > 0 && entrypoint_failure(name, g.entrypoint_mode) is Some {
                    assert(entrypoint_failure(name, g.entrypoint_mode) == Some(e@));
                } else {
                    let file = mount::misplaced_file(g.mount_files)->0;
                    assert(mount::misplaced(file));
                    assert(mount::misplaced_text(name, file) == e@);
                }
            }
        }
    }
}

proof fn lemma_gather_failure(
    scans: Seq<ScanView>,
    failure: Option<Seq<char>>,
    i: int,
    g: Gathered,
)
    requires
        0 <= i <= scans.len(),
    ensures
        gather_from(scans, failure, i, g) matches Err(e) ==> {
            ||| failure == Some(e)
            ||| exists|k: int|
                {
                    &&& i <= k < scans.len()
                    &&& (#[trigger] scans[k]).listing == Err::<ListingView, Seq<char>>(e) || (
                    scans[k].listing is Ok && scans[k].repos == Err::<
                        Map<Seq<char>, Seq<char>>,
                        Seq<char>,
                    >(e))
                    &&& forall|j: int|
                        i <= j < k ==> (#[trigger] scans[j]).listing is Ok && scans[j].repos is Ok
                }
        },
    decreases scans.len() - i,
{
    if i < scans.len() {
        if let (Ok(listing), Ok(repos)) = (scans[i].listing, scans[i].repos) {
            let next = gathered_with(g, scans[i].toml is Ok, listing, repos);
            lemma_gather_failure(scans, failure, i + 1, next);
        } else if let Err(e) = gather_from(scans, failure, i, g) {
            if failure != Some(e) {
                assert(scans[i].listing == Err::<ListingView, Seq<char>>(e) || (scans[i].listing
                    is Ok && scans[i].repos == Err::<Map<Seq<char>, Seq<char>>, Seq<char>>(e)));
            }
        }
    }
}

/// What is said of a loaded fragment is what it holds, field by field.
pub proof fn law_view_of_a_loaded_fragment(loaded: LoadedFragment)
    ensures
        loaded@.fragment == loaded.fragment@,
        loaded@.tree_paths.len() == loaded.tree_paths@.len(),
        forall|k: int|
            0 <= k < loaded.tree_paths@.len() ==> #[trigger] loaded@.tree_paths[k]
                == loaded.tree_paths@[k]@,
        loaded@.hook_paths.len() == loaded.hook_paths@.len(),
        forall|k: int|
            0 <= k < loaded.hook_paths@.len() ==> #[trigger] loaded@.hook_paths[k]
                == loaded.hook_paths@[k]@,
        loaded@.mount_points.len() == loaded.mount_points@.len(),
        forall|k: int|
            0 <= k < loaded.mount_points@.len() ==> #[trigger] loaded@.mount_points[k]
                == loaded.mount_points@[k]@,
        loaded@.resolved_digest is Some <==> loaded.resolved_digest is Some,
        loaded.resolved_digest matches Some(digest) ==> loaded@.resolved_digest == Some(digest@),
        loaded@.drift_warning is Some <==> loaded.drift_warning is Some,
        loaded.drift_warning matches Some(warning) ==> loaded@.drift_warning == Some(warning@),
        loaded@.manifest_index == loaded.manifest_index,
        loaded@.has_mount_dir == loaded.has_mount_dir,
        loaded@.repo_files == loaded.repo_file_contents@,
        loaded@.source == match loaded.source {
            FragmentSource::Registry { image_ref } => image_ref@,
        },
{
}

/// Every image of a manifest is loaded by its own reference: the fragment at
/// each place is what a load of the image at that place gave, with everything
/// that was loaded of it, and knows its place.
pub proof fn law_every_image_is_loaded_by_its_reference<
    F: Fn(&str) -> Result<LoadedFragment, String>,
>(load: F, manifest: Manifest, keep_digests: bool, fragments: Seq<LoadedFragment>)
    requires
        fragments_loaded(
            load,
            declared_images(manifest),
            keep_digests,
            Ok(loaded_views(fragments)),
        ),
    ensures
        fragments.len() == manifest.fragments@.len(),
        forall|i: int|
            0 <= i < fragments.len() ==> {
                let f = #[trigger] fragments[i];
                let image = manifest.fragments@[i].image@;
                &&& f.manifest_index == i
                &&& !"dir:"@.is_prefix_of(image)
                &&& exists|l: LoadedFragment|
                    {
                        &&& #[trigger] oci::answers(load, image, Ok::<LoadedFragment, String>(l))
                        &&& f.fragment@ == l.fragment@
                        &&& text::texts(f.tree_paths@) == text::texts(l.tree_paths@)
                        &&& text::texts(f.hook_paths@) == text::texts(l.hook_paths@)
                        &&& f.repo_file_contents@ == l.repo_file_contents@
                        &&& mount::point_paths(f.mount_points@) == mount::point_paths(
                            l.mount_points@,
                        )
                        &&& f.has_mount_dir == l.has_mount_dir
                        &&& text::opt_text(f.drift_warning) == text::opt_text(l.drift_warning)
                        &&& f.source.image() == if keep_digests {
                            l.source.image()
                        } else {
                            image
                        }
                        &&& text::opt_text(f.resolved_digest) == if keep_digests {
                            text::opt_text(l.resolved_digest)
                        } else {
                            None
                        }
                    }
            },
{
    let images = declared_images(manifest);
    let views = loaded_views(fragments);
    let loads = choose|loads: Seq<Result<LoadedFragment, String>>|
        {
            &&& #[trigger] loaded_far_enough(images, loads)
            &&& forall|i: int|
                0 <= i < loads.len() ==> !manifest::directory_source(#[trigger] images[i])
                    && oci::answers(load, images[i], loads[i])
            &&& Ok::<Seq<LoadedView>, Seq<char>>(views) == fragments_from(
                images,
                keep_digests,
                load_views(loads),
                0,
                Seq::empty(),
            )
        };
    law_loading_follows_the_manifest(images, keep_digests, load_views(loads));
    law_all_fragments_load_or_none(images, keep_digests, load_views(loads));
    assert(loads.len() == images.len()) by {
        if loads.len() < images.len() {
            let n = loads.len() as int;
            assert(image_loads(images[n], load_views(loads)[n]));
            if !manifest::directory_source(images[n]) {
                assert(loads.last() is Err);
                assert(load_views(loads)[n - 1] is Err);
                assert(image_loads(images[n - 1], load_views(loads)[n - 1]));
            }
        }
    }
    assert forall|i: int| 0 <= i < fragments.len() implies {
        let f = #[trigger] fragments[i];
        let image = manifest.fragments@[i].image@;
        &&& f.manifest_index == i
        &&& !"dir:"@.is_prefix_of(image)
        &&& exists|l: LoadedFragment|
            {
                &&& #[trigger] oci::answers(load, image, Ok::<LoadedFragment, String>(l))
                &&& f.fragment@ == l.fragment@
                &&& text::texts(f.tree_paths@) == text::texts(l.tree_paths@)
                &&& text::texts(f.hook_paths@) == text::texts(l.hook_paths@)
                &&& f.repo_file_contents@ == l.repo_file_contents@
                &&& mount::point_paths(f.mount_points@) == mount::point_paths(l.mount_points@)
                &&& f.has_mount_dir == l.has_mount_dir
                &&& text::opt_text(f.drift_warning) == text::opt_text(l.drift_warning)
                &&& f.source.image() == if keep_digests {
                    l.source.image()
                } else {
                    image
                }
                &&& text::opt_text(f.resolved_digest) == if keep_digests {
                    text::opt_text(l.resolved_digest)
                } else {
                    None
                }
            }
    } by {
        let f = fragments[i];
        assert(views[i] == f@);
        assert(views[i].manifest_index == i);
        let image = manifest.fragments@[i].image@;
        assert(images[i] == image);
        assert(image_loads(images[i], load_views(loads)[i]));
        let l = loads[i]->Ok_0;
        assert(load_views(loads)[i] == loaded_result(loads[i]));
        assert(loads[i] == Ok::<LoadedFragment, String>(l));
        assert(oci::answers(load, image, Ok::<LoadedFragment, String>(l)));
        assert(load_views(loads)[i] == Ok::<LoadedView, Seq<char>>(l@));
    }
}

proof fn lemma_remapped_any(paths: Seq<Seq<char>>, prefix: Seq<char>, base: Seq<char>)
    ensures
        remapped(paths, prefix, base) == paths.filter(
            |p: Seq<char>|
                prefix.is_prefix_of(p) && path::components(base).is_prefix_of(path::components(p)),
        ).map_values(|p: Seq<char>| path::stripped(p, base)->0),
    decreases paths.len(),
{
    let wanted = |p: Seq<char>|
        prefix.is_prefix_of(p) && path::components(base).is_prefix_of(path::components(p));
    let seen = |p: Seq<char>| path::stripped(p, base)->0;
    reveal(Seq::filter);
    if paths.len() > 0 {
        let front = paths.drop_last();
        lemma_remapped_any(front, prefix, base);
        if wanted(paths.last()) {
            assert(path::stripped(paths.last(), base) is Some);
            assert(paths.filter(wanted).map_values(seen) =~= front.filter(wanted).map_values(
                seen,
            ).push(seen(paths.last())));
        } else {
            assert(paths.filter(wanted).map_values(seen) =~= front.filter(wanted).map_values(seen));
        }
    } else {
        assert(paths.filter(wanted).map_values(seen) =~= Seq::empty());
    }
}

/// However the paths of a listing are written, every one that begins with
/// `prefix` and lies in `base` is kept, in order, as the path behind `base`,
/// and no other is.
pub proof fn law_no_listed_path_is_lost(paths: Seq<Seq<char>>, prefix: Seq<char>, base: Seq<char>)
    ensures
        remapped(paths, prefix, base) == paths.filter(
            |p: Seq<char>|
                prefix.is_prefix_of(p) && path::components(base).is_prefix_of(path::components(p)),
        ).map_values(|p: Seq<char>| path::stripped(p, base)->0),
{
    lemma_remapped_any(paths, prefix, base);
}

} // verus!
