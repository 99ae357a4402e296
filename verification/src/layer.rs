//! Fragment layers: gzip-compressed tar archives whose members below
//! `fragment/` carry a fragment's metadata, its tree, its hooks and its mount
//! material.

use std::io::Read;

use flate2::read::GzDecoder;
use vstd::prelude::*;

use crate::mount::MountMaterialization;
use crate::path;
use crate::path::{file_name, join_path, parent, strip_prefix, undotted_names};
use crate::repos::RepoFiles;
use crate::text;
use crate::text::{
    contains_text, decimal_text, ends_with, escape_debug, join, lossy_text, same_text, starts_with,
    trim_leading, utf8_text,
};

verus! {

/// The largest `fragment.toml` that is read, in bytes.
pub const MAX_FRAGMENT_TOML_SIZE: u64 = 65536;

/// Where a layer keeps the metadata of its fragment.
pub const FRAGMENT_TOML_PATH: &'static str = "fragment/fragment.toml";

/// The single file under a fragment's `hooks/` that the tool runs, as it
/// appears inside a fragment layer.
pub const HOOKS_ENTRYPOINT_TAR_PATH: &'static str = "fragment/hooks/entrypoint";

/// What a member of a layer is.
#[derive(Debug, Clone, Copy, PartialEq, Eq, Structural)]
pub enum EntryKind {
    Regular,
    HardLink,
    Symlink,
    Directory,
    Other,
}

/// The kind of member that a type byte of a tar header stands for.
pub open spec fn kind_of(type_byte: u8) -> EntryKind {
    if type_byte == 0x30 {
        EntryKind::Regular
    } else if type_byte == 0x31 {
        EntryKind::HardLink
    } else if type_byte == 0x32 {
        EntryKind::Symlink
    } else if type_byte == 0x35 {
        EntryKind::Directory
    } else {
        EntryKind::Other
    }
}

/// The kind of member that a type byte of a tar header stands for.
pub fn entry_kind(type_byte: u8) -> (kind: EntryKind)
    ensures
        kind == kind_of(type_byte),
{
    if type_byte == 0x30 {
        EntryKind::Regular
    } else if type_byte == 0x31 {
        EntryKind::HardLink
    } else if type_byte == 0x32 {
        EntryKind::Symlink
    } else if type_byte == 0x35 {
        EntryKind::Directory
    } else {
        EntryKind::Other
    }
}

/// The one form of a member's path that every matcher compares against:
/// relative, with a leading separator and any `.` component removed.
pub open spec fn canonical(p: Seq<char>) -> Seq<char> {
    text::joined(path::names_without_dot(text::without_leading(p, '/')), seq!['/'])
}

/// The member is a link.
pub open spec fn is_link(kind: EntryKind) -> bool {
    kind == EntryKind::Symlink || kind == EntryKind::HardLink
}

/// The canonical path of a member, or why it is refused: a name that is not
/// UTF-8, a path that could climb out of its directory, an absolute path that
/// does not lie below `/fragment/`, a link.
pub open spec fn checked_entry(path: Seq<u8>, kind: EntryKind) -> Result<Seq<char>, Seq<char>> {
    let p = vstd::utf8::decode_utf8(path);
    if !vstd::utf8::valid_utf8(path) {
        Err(
            "non-UTF-8 entry name rejected in fragment layer: "@ + text::escaped(
                text::lossy_decoded(path),
            ),
        )
    } else if text::occurs_in(".."@, p) {
        Err("path traversal detected in fragment layer: "@ + p)
    } else if path::is_absolute(p) && !"/fragment/"@.is_prefix_of(p) {
        Err("absolute path outside /fragment/ rejected in fragment layer: "@ + p)
    } else if is_link(kind) {
        Err("symlink or hardlink rejected in fragment layer: "@ + p)
    } else {
        Ok(canonical(p))
    }
}

/// Shared validation for members across everything that reads a layer.
/// Refuses path traversal, absolute paths outside `/fragment/`, names that
/// are not UTF-8, and links.
///
/// Returns the member's path in canonical form. Archives legitimately carry
/// the same member as `fragment/hooks/entrypoint`,
/// `./fragment/hooks/entrypoint` or `/fragment/hooks/entrypoint` depending on
/// the builder that produced the layer.
///
/// The returned path is a faithful rendering of the member's name, which is
/// why a name that is not UTF-8 is refused rather than converted lossily: two
/// members that differ only in invalid bytes would land on one file.
pub fn validate_tar_entry(path: &[u8], kind: EntryKind) -> (r: Result<String, String>)
    ensures
        text::result_text(r) == checked_entry(path@, kind),
{
    let p = match utf8_text(path) {
        Ok(p) => p,
        Err(_) => {
            let shown = escape_debug(lossy_text(path).as_str());
            let mut out = "non-UTF-8 entry name rejected in fragment layer: ".to_owned();
            out.append(shown.as_str());
            return Err(out);
        },
    };
    if contains_text(p.as_str(), "..") {
        let mut out = "path traversal detected in fragment layer: ".to_owned();
        out.append(p.as_str());
        return Err(out);
    }
    proof {
        reveal_strlit("/");
        assert("/"@ =~= seq!['/']);
        if path::is_absolute(p@) {
            assert("/"@.is_prefix_of(p@));
        }
        if "/"@.is_prefix_of(p@) {
            assert("/"@[0] == p@[0]);
        }
    }
    if starts_with(p.as_str(), "/") && !starts_with(p.as_str(), "/fragment/") {
        let mut out = "absolute path outside /fragment/ rejected in fragment layer: ".to_owned();
        out.append(p.as_str());
        return Err(out);
    }
    if kind == EntryKind::Symlink || kind == EntryKind::HardLink {
        let mut out = "symlink or hardlink rejected in fragment layer: ".to_owned();
        out.append(p.as_str());
        return Err(out);
    }
    let relative = trim_leading(p.as_str(), '/');
    let parts = undotted_names(relative.as_str());
    Ok(join(&parts, "/"))
}

/// A member of a layer, as its tar header gives it.
#[derive(Debug)]
pub struct LayerMember {
    /// The path, in the bytes of the archive.
    pub path: Vec<u8>,
    /// The type byte.
    pub kind: u8,
    /// The size, or why it cannot be read.
    pub size: Result<u64, String>,
    /// The mode, or why it cannot be read.
    pub mode: Result<u32, String>,
}

/// What a [`LayerMember`] says.
pub struct MemberView {
    pub path: Seq<u8>,
    pub kind: u8,
    pub size: Result<u64, Seq<char>>,
    pub mode: Result<u32, Seq<char>>,
}

impl View for LayerMember {
    type V = MemberView;

    open spec fn view(&self) -> MemberView {
        MemberView {
            path: self.path@,
            kind: self.kind,
            size: match self.size {
                Ok(size) => Ok(size),
                Err(e) => Err(e@),
            },
            mode: match self.mode {
                Ok(mode) => Ok(mode),
                Err(e) => Err(e@),
            },
        }
    }
}

/// What was read of one member.
pub open spec fn member_view(member: Result<LayerMember, String>) -> Result<
    MemberView,
    Seq<char>,
> {
    match member {
        Ok(m) => Ok(m@),
        Err(e) => Err(e@),
    }
}

/// What was read of each member.
pub open spec fn member_views(members: Seq<Result<LayerMember, String>>) -> Seq<
    Result<MemberView, Seq<char>>,
> {
    members.map_values(|m: Result<LayerMember, String>| member_view(m))
}

/// What was read of the members of a layer, or why none could be.
pub open spec fn members_view(r: Result<Vec<Result<LayerMember, String>>, String>) -> Result<
    Seq<Result<MemberView, Seq<char>>>,
    Seq<char>,
> {
    match r {
        Ok(members) => Ok(member_views(members@)),
        Err(e) => Err(e@),
    }
}

/// The members that `tar` finds in a gzip-compressed layer, in the order of
/// the archive, with the message of each that cannot be read.
pub uninterp spec fn layer_members(layer: Seq<u8>) -> Result<
    Seq<Result<MemberView, Seq<char>>>,
    Seq<char>,
>;

/// The members of a layer by `tar::Archive::entries`, decompressed by
/// `flate2::read::GzDecoder`: of each its `path_bytes`, and the type byte,
/// size and mode of its header. They are a function of the layer's bytes.
#[verifier::external_body]
pub(crate) fn list_members(layer: &[u8]) -> (r: Result<Vec<Result<LayerMember, String>>, String>)
    ensures
        members_view(r) == layer_members(layer@),
{
    let mut archive = tar::Archive::new(GzDecoder::new(layer));
    let entries = archive.entries().map_err(|e| e.to_string())?;
    let members = entries.map(|entry| match entry {
        Ok(entry) => Ok(LayerMember {
            path: entry.path_bytes().into_owned(),
            kind: entry.header().entry_type().as_byte(),
            size: entry.header().size().map_err(|e| e.to_string()),
            mode: entry.header().mode().map_err(|e| e.to_string()),
        }),
        Err(e) => Err(e.to_string()),
    });
    Ok(members.collect())
}

/// What the member at a place of a layer holds, as text, or the message of
/// the failure to read it; the empty text where the layer has no such member.
pub uninterp spec fn member_content(layer: Seq<u8>, index: nat) -> Result<Seq<char>, Seq<char>>;

/// What the member at place `index` of a layer holds, read by
/// `tar::Entry::read_to_string`; the empty text where there is no such
/// member. It is a function of the layer's bytes and the place.
#[verifier::external_body]
pub(crate) fn member_text(layer: &[u8], index: usize) -> (r: Result<String, String>)
    ensures
        text::result_text(r) == member_content(layer@, index as nat),
{
    let mut archive = tar::Archive::new(GzDecoder::new(layer));
    let mut content = String::new();
    if let Some(entry) = archive.entries().map_err(|e| e.to_string())?.nth(index) {
        entry.and_then(|mut e| e.read_to_string(&mut content)).map_err(|e| e.to_string())?;
    }
    Ok(content)
}

/// The canonical path of a member, or why reading the layer ends there;
/// `context` stands before the message of a member that cannot be read.
pub open spec fn admitted(
    member: Result<MemberView, Seq<char>>,
    context: Seq<char>,
) -> Result<Seq<char>, Seq<char>> {
    match member {
        Ok(m) => checked_entry(m.path, kind_of(m.kind)),
        Err(e) => Err(context + e),
    }
}

/// The canonical path of a member, or why reading the layer ends there.
fn check_member(member: &Result<LayerMember, String>, context: &str) -> (r: Result<String, String>)
    ensures
        text::result_text(r) == admitted(member_view(*member), context@),
{
    match member {
        Ok(m) => validate_tar_entry(m.path.as_slice(), entry_kind(m.kind)),
        Err(e) => {
            let mut out = context.to_owned();
            out.append(e.as_str());
            Err(out)
        },
    }
}

/// What is said of a `fragment.toml` that is too large.
pub open spec fn oversized_text(size: u64) -> Seq<char> {
    "fragment.toml is "@ + text::decimal(size as nat) + " bytes, exceeds "@ + text::decimal(
        MAX_FRAGMENT_TOML_SIZE as nat,
    ) + " byte limit"@
}

/// Where the members from place `i` on hold `fragment.toml`, one having been
/// found at `found`, and why the search ends early, if it does.
pub open spec fn toml_search_from(
    members: Seq<Result<MemberView, Seq<char>>>,
    i: int,
    found: Option<int>,
) -> (Option<int>, Option<Seq<char>>)
    decreases members.len() - i,
{
    if i >= members.len() {
        (found, None)
    } else {
        match admitted(members[i], "reading tar entry: "@) {
            Err(e) => (found, Some(e)),
            Ok(p) => if p != FRAGMENT_TOML_PATH@ {
                toml_search_from(members, i + 1, found)
            } else if found is Some {
                (found, Some("duplicate fragment.toml entries in layer"@))
            } else {
                match members[i] {
                    Ok(m) => match m.size {
                        Err(e) => (found, Some(e)),
                        Ok(size) => if size > MAX_FRAGMENT_TOML_SIZE {
                            (found, Some(oversized_text(size)))
                        } else {
                            toml_search_from(members, i + 1, Some(i))
                        },
                    },
                    Err(e) => (found, Some(e)),
                }
            },
        }
    }
}

/// Where a layer holds `fragment.toml`, and why the search ended before the
/// end of the layer, if it did.
#[derive(Debug, Clone)]
pub struct TomlSearch {
    pub found: Option<usize>,
    pub failure: Option<String>,
}

impl View for TomlSearch {
    type V = (Option<int>, Option<Seq<char>>);

    open spec fn view(&self) -> (Option<int>, Option<Seq<char>>) {
        (
            match self.found {
                Some(i) => Some(i as int),
                None => None,
            },
            text::opt_text(self.failure),
        )
    }
}

/// Looks for `fragment.toml` among the members of a layer. Each member is
/// held to the rules of [`validate_tar_entry`], and the search ends at the
/// first that breaks them, at a second `fragment.toml`, or at one that is
/// too large.
pub fn find_fragment_toml(members: &[Result<LayerMember, String>]) -> (search: TomlSearch)
    ensures
        search@ == toml_search_from(member_views(members@), 0, None),
        search.found matches Some(i) ==> i < members@.len(),
{
    let ghost views = member_views(members@);
    let mut found: Option<usize> = None;
    for i in 0..members.len()
        invariant
            views == member_views(members@),
            found matches Some(k) ==> k < i,
            toml_search_from(views, 0, None) == toml_search_from(
                views,
                i as int,
                match found {
                    Some(k) => Some(k as int),
                    None => None,
                },
            ),
    {
        assert(views[i as int] == member_view(members@[i as int]));
        let p = match check_member(&members[i], "reading tar entry: ") {
            Ok(p) => p,
            Err(e) => {
                return TomlSearch { found, failure: Some(e) };
            },
        };
        if same_text(p.as_str(), FRAGMENT_TOML_PATH) {
            if found.is_some() {
                return TomlSearch {
                    found,
                    failure: Some("duplicate fragment.toml entries in layer".to_owned()),
                };
            }
            match &members[i] {
                Ok(m) => match &m.size {
                    Ok(size) => {
                        if *size > MAX_FRAGMENT_TOML_SIZE {
                            let mut out = "fragment.toml is ".to_owned();
                            out.append(decimal_text(*size).as_str());
                            out.append(" bytes, exceeds ");
                            out.append(decimal_text(MAX_FRAGMENT_TOML_SIZE).as_str());
                            out.append(" byte limit");
                            return TomlSearch { found, failure: Some(out) };
                        }
                        found = Some(i);
                    },
                    Err(e) => {
                        return TomlSearch { found, failure: Some(e.clone()) };
                    },
                },
                Err(e) => {
                    return TomlSearch { found, failure: Some(e.clone()) };
                },
            }
        }
    }
    TomlSearch { found, failure: None }
}

/// The `fragment.toml` of a layer, given where it was found, how the search
/// ended, and what the member there holds.
pub open spec fn toml_result(
    search: (Option<int>, Option<Seq<char>>),
    content: Result<Seq<char>, Seq<char>>,
) -> Result<Seq<char>, Seq<char>> {
    match search.0 {
        Some(_) => match content {
            Err(e) => Err("reading fragment.toml from layer: "@ + e),
            Ok(toml) => match search.1 {
                Some(failure) => Err(failure),
                None => Ok(toml),
            },
        },
        None => match search.1 {
            Some(failure) => Err(failure),
            None => Err("fragment.toml not found in layer"@),
        },
    }
}

/// The `fragment.toml` of a layer, given where it was found and how the
/// search ended, and what the member there holds.
pub fn found_toml(search: TomlSearch, content: Result<String, String>) -> (r: Result<String, String>)
    ensures
        text::result_text(r) == toml_result(search@, text::result_text(content)),
{
    match search.found {
        Some(_) => match content {
            Err(e) => {
                let mut out = "reading fragment.toml from layer: ".to_owned();
                out.append(e.as_str());
                Err(out)
            },
            Ok(toml) => match search.failure {
                Some(failure) => Err(failure),
                None => Ok(toml),
            },
        },
        None => match search.failure {
            Some(failure) => Err(failure),
            None => Err("fragment.toml not found in layer".to_owned()),
        },
    }
}

/// The `fragment.toml` that a layer with the given members carries.
pub open spec fn layer_toml(
    layer: Seq<u8>,
    members: Result<Seq<Result<MemberView, Seq<char>>>, Seq<char>>,
) -> Result<Seq<char>, Seq<char>> {
    match members {
        Err(e) => Err("reading tar entries: "@ + e),
        Ok(members) => {
            let search = toml_search_from(members, 0, None);
            toml_result(
                search,
                match search.0 {
                    Some(i) => member_content(layer, i as nat),
                    None => Ok(Seq::empty()),
                },
            )
        },
    }
}

/// The `fragment.toml` of a compressed layer.
pub fn extract_fragment_toml_from_bytes(compressed: &[u8]) -> (r: Result<String, String>)
    ensures
        text::result_text(r) == layer_toml(compressed@, layer_members(compressed@)),
{
    let members = match list_members(compressed) {
        Ok(members) => members,
        Err(e) => {
            let mut out = "reading tar entries: ".to_owned();
            out.append(e.as_str());
            return Err(out);
        },
    };
    let search = find_fragment_toml(&members);
    let content = match search.found {
        Some(i) => member_text(compressed, i),
        None => Ok(String::new()),
    };
    found_toml(search, content)
}

/// What a layer lists: its regular files, the mode of the hooks entrypoint
/// when the layer carries one as a regular file, and whether it carries a
/// `mount/` directory.
#[derive(Debug, Clone)]
pub struct LayerListing {
    pub paths: Vec<String>,
    pub entrypoint_mode: Option<u32>,
    pub has_mount_dir: bool,
}

/// What a [`LayerListing`] says.
#[verifier::ext_equal]
pub struct ListingView {
    pub paths: Seq<Seq<char>>,
    pub entrypoint_mode: Option<u32>,
    pub has_mount_dir: bool,
}

impl View for LayerListing {
    type V = ListingView;

    open spec fn view(&self) -> ListingView {
        ListingView {
            paths: text::texts(self.paths@),
            entrypoint_mode: self.entrypoint_mode,
            has_mount_dir: self.has_mount_dir,
        }
    }
}

/// What a listing says, or why there is none.
pub open spec fn listing_view(r: Result<LayerListing, String>) -> Result<
    ListingView,
    Seq<char>,
> {
    match r {
        Ok(listing) => Ok(listing@),
        Err(e) => Err(e@),
    }
}

/// The listing of nothing.
pub open spec fn empty_listing() -> ListingView {
    ListingView { paths: Seq::empty(), entrypoint_mode: None, has_mount_dir: false }
}

/// A member that shows that the layer carries a `mount/` directory: the
/// directory itself, or anything below it.
pub open spec fn mount_entry(p: Seq<char>, kind: EntryKind) -> bool {
    ||| "fragment/mount/"@.is_prefix_of(p)
    ||| p == "fragment/mount"@ && kind == EntryKind::Directory
}

/// A listing with one more member in it.
pub open spec fn listed(listing: ListingView, p: Seq<char>, member: MemberView) -> Result<
    ListingView,
    Seq<char>,
> {
    let kind = kind_of(member.kind);
    let has_mount_dir = listing.has_mount_dir || mount_entry(p, kind);
    if kind != EntryKind::Regular {
        Ok(
            ListingView {
                paths: listing.paths,
                entrypoint_mode: listing.entrypoint_mode,
                has_mount_dir,
            },
        )
    } else if p == HOOKS_ENTRYPOINT_TAR_PATH@ {
        match member.mode {
            Ok(mode) => Ok(
                ListingView {
                    paths: listing.paths.push(p),
                    entrypoint_mode: Some(mode),
                    has_mount_dir,
                },
            ),
            Err(e) => Err(e),
        }
    } else {
        Ok(
            ListingView {
                paths: listing.paths.push(p),
                entrypoint_mode: listing.entrypoint_mode,
                has_mount_dir,
            },
        )
    }
}

/// A listing with the members from place `i` on in it, or the first reason
/// why one of them is refused.
pub open spec fn listing_from(
    members: Seq<Result<MemberView, Seq<char>>>,
    i: int,
    listing: ListingView,
) -> Result<ListingView, Seq<char>>
    decreases members.len() - i,
{
    if i >= members.len() {
        Ok(listing)
    } else {
        match admitted(members[i], ""@) {
            Err(e) => Err(e),
            Ok(p) => match members[i] {
                Err(e) => Err(e),
                Ok(m) => match listed(listing, p, m) {
                    Err(e) => Err(e),
                    Ok(more) => listing_from(members, i + 1, more),
                },
            },
        }
    }
}

/// The regular files among the members of a layer, the mode of
/// `fragment/hooks/entrypoint` when one of them is that, and whether the
/// layer carries `fragment/mount/`. Each member is held to the rules of
/// [`validate_tar_entry`].
pub fn list_paths(members: &[Result<LayerMember, String>]) -> (r: Result<LayerListing, String>)
    ensures
        listing_view(r) == listing_from(member_views(members@), 0, empty_listing()),
{
    let ghost views = member_views(members@);
    let mut paths: Vec<String> = Vec::new();
    let mut entrypoint_mode: Option<u32> = None;
    let mut has_mount_dir = false;
    assert(text::texts(paths@) =~= empty_listing().paths);
    for i in 0..members.len()
        invariant
            views == member_views(members@),
            listing_from(views, 0, empty_listing()) == listing_from(
                views,
                i as int,
                ListingView { paths: text::texts(paths@), entrypoint_mode, has_mount_dir },
            ),
    {
        let ghost before = text::texts(paths@);
        assert(views[i as int] == member_view(members@[i as int]));
        let p = match check_member(&members[i], "") {
            Ok(p) => p,
            Err(e) => {
                return Err(e);
            },
        };
        match &members[i] {
            Ok(m) => {
                let kind = entry_kind(m.kind);
                has_mount_dir = has_mount_dir || starts_with(p.as_str(), "fragment/mount/") || (
                same_text(p.as_str(), "fragment/mount") && kind == EntryKind::Directory);
                if kind == EntryKind::Regular {
                    if same_text(p.as_str(), HOOKS_ENTRYPOINT_TAR_PATH) {
                        match &m.mode {
                            Ok(mode) => {
                                entrypoint_mode = Some(*mode);
                            },
                            Err(e) => {
                                return Err(e.clone());
                            },
                        }
                    }
                    let ghost added = p@;
                    paths.push(p);
                    assert(text::texts(paths@) =~= before.push(added));
                }
            },
            Err(e) => {
                return Err(e.clone());
            },
        }
    }
    Ok(LayerListing { paths, entrypoint_mode, has_mount_dir })
}

/// What a layer with the given members lists.
pub open spec fn layer_listing(
    members: Result<Seq<Result<MemberView, Seq<char>>>, Seq<char>>,
) -> Result<ListingView, Seq<char>> {
    match members {
        Err(e) => Err(e),
        Ok(members) => listing_from(members, 0, empty_listing()),
    }
}

/// Regular-file paths in a layer, plus the mode of
/// `fragment/hooks/entrypoint` when this layer carries one as a regular
/// file, and whether it carries a `mount/` directory.
pub fn extract_tree_paths_from_bytes(compressed: &[u8]) -> (r: Result<LayerListing, String>)
    ensures
        listing_view(r) == layer_listing(layer_members(compressed@)),
{
    match list_members(compressed) {
        Ok(members) => list_paths(&members),
        Err(e) => Err(e),
    }
}

/// The path is that of a `.repo` file.
pub open spec fn repo_file_path(p: Seq<char>) -> bool {
    text::occurs_in("yum.repos.d/"@, p) && ".repo"@.is_suffix_of(p)
}

/// A `.repo` file among the members of a layer.
#[derive(Debug, Clone)]
pub struct RepoMember {
    pub index: usize,
    pub name: String,
}

/// Where members lie and what they are named.
pub open spec fn repo_members(list: Seq<RepoMember>) -> Seq<(int, Seq<char>)> {
    list.map_values(|m: RepoMember| (m.index as int, m.name@))
}

/// The `.repo` files of a layer, and why the search ended before the end of
/// the layer, if it did.
#[derive(Debug, Clone)]
pub struct RepoSearch {
    pub wanted: Vec<RepoMember>,
    pub failure: Option<String>,
}

impl View for RepoSearch {
    type V = (Seq<(int, Seq<char>)>, Option<Seq<char>>);

    open spec fn view(&self) -> (Seq<(int, Seq<char>)>, Option<Seq<char>>) {
        (repo_members(self.wanted@), text::opt_text(self.failure))
    }
}

/// The `.repo` files among the members from place `i` on, behind those
/// already found, and why the search ends early, if it does.
pub open spec fn repo_search_from(
    members: Seq<Result<MemberView, Seq<char>>>,
    i: int,
    wanted: Seq<(int, Seq<char>)>,
) -> (Seq<(int, Seq<char>)>, Option<Seq<char>>)
    decreases members.len() - i,
{
    if i >= members.len() {
        (wanted, None)
    } else {
        match admitted(members[i], ""@) {
            Err(e) => (wanted, Some(e)),
            Ok(p) => match path::file_name_of(p) {
                Some(name) if repo_file_path(p) => repo_search_from(
                    members,
                    i + 1,
                    wanted.push((i, name)),
                ),
                _ => repo_search_from(members, i + 1, wanted),
            },
        }
    }
}

/// Looks for `.repo` files among the members of a layer, each held to the
/// rules of [`validate_tar_entry`].
pub fn find_repo_files(members: &[Result<LayerMember, String>]) -> (search: RepoSearch)
    ensures
        search@ == repo_search_from(member_views(members@), 0, Seq::empty()),
{
    let ghost views = member_views(members@);
    let mut wanted: Vec<RepoMember> = Vec::new();
    assert(repo_members(wanted@) =~= Seq::empty());
    for i in 0..members.len()
        invariant
            views == member_views(members@),
            repo_search_from(views, 0, Seq::empty()) == repo_search_from(
                views,
                i as int,
                repo_members(wanted@),
            ),
    {
        let ghost before = repo_members(wanted@);
        assert(views[i as int] == member_view(members@[i as int]));
        let p = match check_member(&members[i], "") {
            Ok(p) => p,
            Err(e) => {
                return RepoSearch { wanted, failure: Some(e) };
            },
        };
        if contains_text(p.as_str(), "yum.repos.d/") && ends_with(p.as_str(), ".repo") {
            if let Some(name) = file_name(p.as_str()) {
                let ghost added = (i as int, name@);
                wanted.push(RepoMember { index: i, name });
                assert(repo_members(wanted@) =~= before.push(added));
            }
        }
    }
    RepoSearch { wanted, failure: None }
}

/// The files from place `k` on put into `files`, or the message of the first
/// that cannot be read.
pub open spec fn repo_files_from(
    wanted: Seq<(int, Seq<char>)>,
    contents: Seq<Result<Seq<char>, Seq<char>>>,
    k: int,
    files: Map<Seq<char>, Seq<char>>,
) -> Result<Map<Seq<char>, Seq<char>>, Seq<char>>
    decreases wanted.len() - k,
{
    if k >= wanted.len() {
        Ok(files)
    } else {
        match contents[k] {
            Err(e) => Err(e),
            Ok(content) => repo_files_from(
                wanted,
                contents,
                k + 1,
                files.insert(wanted[k].1, content),
            ),
        }
    }
}

/// The `.repo` files of a layer by name, given where they were found and how
/// the search ended, and what each of the members there holds.
pub open spec fn repo_result(
    search: (Seq<(int, Seq<char>)>, Option<Seq<char>>),
    contents: Seq<Result<Seq<char>, Seq<char>>>,
) -> Result<Map<Seq<char>, Seq<char>>, Seq<char>> {
    match repo_files_from(search.0, contents, 0, Map::empty()) {
        Err(e) => Err(e),
        Ok(files) => match search.1 {
            Some(failure) => Err(failure),
            None => Ok(files),
        },
    }
}

/// What files are held, or why there are none.
pub open spec fn repos_view(r: Result<RepoFiles, String>) -> Result<
    Map<Seq<char>, Seq<char>>,
    Seq<char>,
> {
    match r {
        Ok(files) => Ok(files@),
        Err(e) => Err(e@),
    }
}

/// What was read of each of a list of members.
pub open spec fn content_views(contents: Seq<Result<String, String>>) -> Seq<
    Result<Seq<char>, Seq<char>>,
> {
    contents.map_values(|c: Result<String, String>| text::result_text(c))
}

/// The `.repo` files of a layer by name, given where they were found and how
/// the search ended, and what each of the members there holds. Of two files
/// of one name the later counts.
pub fn found_repo_files(search: RepoSearch, contents: &[Result<String, String>]) -> (r: Result<
    RepoFiles,
    String,
>)
    requires
        contents@.len() == search.wanted@.len(),
    ensures
        repos_view(r) == repo_result(search@, content_views(contents@)),
{
    let ghost wanted = repo_members(search.wanted@);
    let ghost views = content_views(contents@);
    let mut files = RepoFiles::new();
    for k in 0..contents.len()
        invariant
            contents@.len() == search.wanted@.len(),
            wanted == repo_members(search.wanted@),
            views == content_views(contents@),
            repo_files_from(wanted, views, 0, Map::empty()) == repo_files_from(
                wanted,
                views,
                k as int,
                files@,
            ),
    {
        assert(views[k as int] == text::result_text(contents@[k as int]));
        assert(wanted[k as int].1 == search.wanted@[k as int].name@);
        match &contents[k] {
            Ok(content) => {
                files.insert(search.wanted[k].name.clone(), content.clone());
            },
            Err(e) => {
                return Err(e.clone());
            },
        }
    }
    match search.failure {
        Some(failure) => Err(failure),
        None => Ok(files),
    }
}

/// The `.repo` files that a layer with the given members carries.
pub open spec fn layer_repos(
    layer: Seq<u8>,
    members: Result<Seq<Result<MemberView, Seq<char>>>, Seq<char>>,
) -> Result<Map<Seq<char>, Seq<char>>, Seq<char>> {
    match members {
        Err(e) => Err(e),
        Ok(members) => {
            let search = repo_search_from(members, 0, Seq::empty());
            repo_result(
                search,
                search.0.map_values(|m: (int, Seq<char>)| member_content(layer, m.0 as nat)),
            )
        },
    }
}

/// The `.repo` files of a compressed layer, by file name.
pub fn extract_repo_file_contents_from_bytes(compressed: &[u8]) -> (r: Result<RepoFiles, String>)
    ensures
        repos_view(r) == layer_repos(compressed@, layer_members(compressed@)),
{
    let members = match list_members(compressed) {
        Ok(members) => members,
        Err(e) => {
            return Err(e);
        },
    };
    let search = find_repo_files(&members);
    let ghost named = search@.0.map_values(
        |m: (int, Seq<char>)| member_content(compressed@, m.0 as nat),
    );
    let mut contents: Vec<Result<String, String>> = Vec::new();
    for k in 0..search.wanted.len()
        invariant
            named == search@.0.map_values(
                |m: (int, Seq<char>)| member_content(compressed@, m.0 as nat),
            ),
            content_views(contents@) == named.take(k as int),
    {
        let ghost before = content_views(contents@);
        let content = member_text(compressed, search.wanted[k].index);
        let ghost added = text::result_text(content);
        assert(named[k as int] == added);
        contents.push(content);
        assert(content_views(contents@) =~= before.push(added));
        assert(content_views(contents@) =~= named.take(k + 1));
    }
    assert(named.take(named.len() as int) =~= named);
    assert(content_views(contents@).len() == contents@.len());
    found_repo_files(search, &contents)
}

/// Where below `dest_dir` a member of the payload at canonical path `p` is
/// written: what lies under `fragment/tree`, `fragment/hooks` and, when mount
/// material is written, `fragment/mount`. `None` for everything else.
pub open spec fn payload_place(
    p: Seq<char>,
    dest_dir: Seq<char>,
    mounts: MountMaterialization,
) -> Option<Seq<char>> {
    match path::stripped(p, "fragment/tree"@) {
        Some(rel) => Some(path::path_join(path::path_join(dest_dir, "tree"@), rel)),
        None => match path::stripped(p, "fragment/hooks"@) {
            Some(rel) => Some(path::path_join(path::path_join(dest_dir, "hooks"@), rel)),
            None => match path::stripped(p, "fragment/mount"@) {
                Some(rel) if mounts == MountMaterialization::Write => Some(
                    path::path_join(path::path_join(dest_dir, "mount"@), rel),
                ),
                _ => None,
            },
        },
    }
}

/// Where a member of a layer is written, or why the layer is refused.
pub open spec fn payload_entry(
    path: Seq<u8>,
    kind: EntryKind,
    dest_dir: Seq<char>,
    mounts: MountMaterialization,
) -> Result<Option<Seq<char>>, Seq<char>> {
    match checked_entry(path, kind) {
        Err(e) => Err(e),
        Ok(p) => Ok(
            if kind == EntryKind::Regular || kind == EntryKind::Directory {
                payload_place(p, dest_dir, mounts)
            } else {
                None
            },
        ),
    }
}

/// Where a member of a layer is written when a fragment is materialized under
/// `dest_dir`, if it is written at all. Members are held to the same rules as
/// everywhere else.
pub fn payload_destination(
    path: &[u8],
    kind: EntryKind,
    dest_dir: &str,
    mounts: MountMaterialization,
) -> (r: Result<Option<String>, String>)
    ensures
        match r {
            Ok(place) => Ok(text::opt_text(place)),
            Err(e) => Err(e@),
        } == payload_entry(path@, kind, dest_dir@, mounts),
{
    let p = match validate_tar_entry(path, kind) {
        Ok(p) => p,
        Err(e) => {
            return Err(e);
        },
    };
    if kind != EntryKind::Regular && kind != EntryKind::Directory {
        return Ok(None);
    }
    if let Some(rel) = strip_prefix(p.as_str(), "fragment/tree") {
        return Ok(Some(join_path(join_path(dest_dir, "tree").as_str(), rel.as_str())));
    }
    if let Some(rel) = strip_prefix(p.as_str(), "fragment/hooks") {
        return Ok(Some(join_path(join_path(dest_dir, "hooks").as_str(), rel.as_str())));
    }
    if let Some(rel) = strip_prefix(p.as_str(), "fragment/mount") {
        if mounts == MountMaterialization::Write {
            return Ok(Some(join_path(join_path(dest_dir, "mount").as_str(), rel.as_str())));
        }
    }
    Ok(None)
}

/// A member of a layer and where it is written.
#[derive(Debug, Clone)]
pub struct PayloadWrite {
    /// The member's place in the layer.
    pub index: usize,
    /// Where it is written.
    pub dest: String,
    /// The directory that must exist first.
    pub parent: Option<String>,
}

/// Places and destinations of a list of writes, each with its directory.
pub open spec fn write_views(writes: Seq<PayloadWrite>) -> Seq<
    (int, Seq<char>, Option<Seq<char>>),
> {
    writes.map_values(|w: PayloadWrite| (w.index as int, w.dest@, text::opt_text(w.parent)))
}

/// What of a layer is written, and why the layer is refused behind that, if
/// it is.
#[derive(Debug, Clone)]
pub struct PayloadPlan {
    pub writes: Vec<PayloadWrite>,
    pub failure: Option<String>,
}

impl View for PayloadPlan {
    type V = (Seq<(int, Seq<char>, Option<Seq<char>>)>, Option<Seq<char>>);

    open spec fn view(&self) -> (Seq<(int, Seq<char>, Option<Seq<char>>)>, Option<Seq<char>>) {
        (write_views(self.writes@), text::opt_text(self.failure))
    }
}

/// Where the members from place `i` on are written, behind those already
/// planned, and why the layer is refused, if it is.
pub open spec fn payload_from(
    members: Seq<Result<MemberView, Seq<char>>>,
    dest_dir: Seq<char>,
    mounts: MountMaterialization,
    i: int,
    writes: Seq<(int, Seq<char>, Option<Seq<char>>)>,
) -> (Seq<(int, Seq<char>, Option<Seq<char>>)>, Option<Seq<char>>)
    decreases members.len() - i,
{
    if i >= members.len() {
        (writes, None)
    } else {
        match members[i] {
            Err(e) => (writes, Some("reading tar entry: "@ + e)),
            Ok(m) => match payload_entry(m.path, kind_of(m.kind), dest_dir, mounts) {
                Err(e) => (writes, Some(e)),
                Ok(None) => payload_from(members, dest_dir, mounts, i + 1, writes),
                Ok(Some(dest)) => payload_from(
                    members,
                    dest_dir,
                    mounts,
                    i + 1,
                    writes.push((i, dest, path::parent_of(dest))),
                ),
            },
        }
    }
}

/// What of a layer with the given members is written when its fragment is
/// materialized under `dest_dir`: its `tree/` and `hooks/` payload, and its
/// mount material when that is asked for. A member that breaks the rules of
/// [`validate_tar_entry`] ends the plan.
pub fn payload_plan(
    members: &[Result<LayerMember, String>],
    dest_dir: &str,
    mounts: MountMaterialization,
) -> (plan: PayloadPlan)
    ensures
        plan@ == payload_from(member_views(members@), dest_dir@, mounts, 0, Seq::empty()),
{
    let ghost views = member_views(members@);
    let mut writes: Vec<PayloadWrite> = Vec::new();
    assert(write_views(writes@) =~= Seq::empty());
    for i in 0..members.len()
        invariant
            views == member_views(members@),
            payload_from(views, dest_dir@, mounts, 0, Seq::empty()) == payload_from(
                views,
                dest_dir@,
                mounts,
                i as int,
                write_views(writes@),
            ),
    {
        let ghost before = write_views(writes@);
        assert(views[i as int] == member_view(members@[i as int]));
        match &members[i] {
            Err(e) => {
                let mut out = "reading tar entry: ".to_owned();
                out.append(e.as_str());
                return PayloadPlan { writes, failure: Some(out) };
            },
            Ok(m) => {
                let place = payload_destination(
                    m.path.as_slice(),
                    entry_kind(m.kind),
                    dest_dir,
                    mounts,
                );
                match place {
                    Err(e) => {
                        return PayloadPlan { writes, failure: Some(e) };
                    },
                    Ok(None) => {},
                    Ok(Some(dest)) => {
                        let parent = parent(dest.as_str());
                        let ghost added = (i as int, dest@, text::opt_text(parent));
                        writes.push(PayloadWrite { index: i, dest, parent });
                        assert(write_views(writes@) =~= before.push(added));
                    },
                }
            },
        }
    }
    PayloadPlan { writes, failure: None }
}

/// What of a layer with the given members is written, or why nothing can be.
pub open spec fn layer_payload(
    members: Result<Seq<Result<MemberView, Seq<char>>>, Seq<char>>,
    dest_dir: Seq<char>,
    mounts: MountMaterialization,
) -> Result<(Seq<(int, Seq<char>, Option<Seq<char>>)>, Option<Seq<char>>), Seq<char>> {
    match members {
        Err(e) => Err("reading tar entries: "@ + e),
        Ok(members) => Ok(payload_from(members, dest_dir, mounts, 0, Seq::empty())),
    }
}

/// What of a compressed layer is written when its fragment is materialized
/// under `dest_dir`.
pub fn plan_fragment_payload(
    compressed: &[u8],
    dest_dir: &str,
    mounts: MountMaterialization,
) -> (r: Result<PayloadPlan, String>)
    ensures
        match r {
            Ok(plan) => Ok(plan@),
            Err(e) => Err(e@),
        } == layer_payload(layer_members(compressed@), dest_dir@, mounts),
{
    match list_members(compressed) {
        Ok(members) => Ok(payload_plan(&members, dest_dir, mounts)),
        Err(e) => {
            let mut out = "reading tar entries: ".to_owned();
            out.append(e.as_str());
            Err(out)
        },
    }
}

/// `..` stands in a text where two dots stand next to each other.
proof fn lemma_no_dots(p: Seq<char>)
    ensures
        text::occurs_in(".."@, p) <==> exists|i: int|
            0 <= i < p.len() - 1 && #[trigger] p[i] == '.' && p[i + 1] == '.',
{
    reveal_strlit("..");
    let dots = ".."@;
    assert(dots =~= seq!['.', '.']);
    if text::occurs_in(dots, p) {
        let i = choose|i: int| text::occurs_at(dots, p, i);
        assert(p.subrange(i, i + 2)[0] == dots[0]);
        assert(p.subrange(i, i + 2)[1] == dots[1]);
        assert(p[i] == '.' && p[i + 1] == '.');
    }
    if exists|i: int| 0 <= i < p.len() - 1 && #[trigger] p[i] == '.' && p[i + 1] == '.' {
        let i = choose|i: int|
            0 <= i < p.len() - 1 && #[trigger] p[i] == '.' && p[i + 1] == '.';
        assert(p.subrange(i, i + 2) =~= dots);
        assert(text::occurs_at(dots, p, i));
    }
}

/// The names of an accepted path, without a leading `.`, are ordinary.
proof fn lemma_ordinary_names(p: Seq<char>)
    requires
        !text::occurs_in(".."@, p),
        !path::is_absolute(p),
    ensures
        forall|k: int|
            0 <= k < path::names_without_dot(p).len() ==> path::plain_name(#[trigger] path::names_without_dot(p)[k]),
{
    path::lemma_names(p);
    lemma_no_dots(p);
    let all = path::names(p);
    assert forall|k: int| 0 <= k < path::names_without_dot(p).len() implies path::plain_name(
        #[trigger] path::names_without_dot(p)[k],
    ) by {
        let m = if all[0] == seq!['.'] {
            k + 1
        } else {
            k
        };
        let name = path::names_without_dot(p)[k];
        assert(all[m] == name);
        if name == seq!['.', '.'] {
            path::lemma_spans_from(p, 0);
            let at = path::spans_from(p, 0);
            let span = at[m];
            assert(all[m] == p.subrange(span.0, span.1));
            assert(p.subrange(span.0, span.1)[0] == p[span.0]);
            assert(p.subrange(span.0, span.1)[1] == p[span.0 + 1]);
            assert(p[span.0] == '.' && p[span.0 + 1] == '.');
        }
    }
}

/// Leading separators bring no `..` in and leave nothing absolute.
proof fn lemma_without_leading(p: Seq<char>)
    ensures
        !path::is_absolute(text::without_leading(p, '/')),
        text::occurs_in(".."@, text::without_leading(p, '/')) ==> text::occurs_in(".."@, p),
    decreases p.len(),
{
    if path::is_absolute(p) {
        let q = p.drop_first();
        lemma_without_leading(q);
        if text::occurs_in(".."@, q) {
            let i = choose|i: int| text::occurs_at(".."@, q, i);
            assert(q.subrange(i, i + ".."@.len()) =~= p.subrange(i + 1, i + 1 + ".."@.len()));
            assert(text::occurs_at(".."@, p, i + 1));
        }
    }
}

/// The canonical form of a path without `..` is empty or a relative path of
/// ordinary components, and it is its own canonical form.
pub proof fn law_canonical_paths_are_ordinary(p: Seq<char>)
    requires
        !text::occurs_in(".."@, p),
    ensures
        canonical(p).len() == 0 || path::ordinary_path(canonical(p)),
        canonical(canonical(p)) == canonical(p),
        path::names(canonical(p)) == path::names_without_dot(text::without_leading(p, '/')),
{
    let q = text::without_leading(p, '/');
    lemma_without_leading(p);
    lemma_ordinary_names(q);
    let list = path::names_without_dot(q);
    let c = canonical(p);
    if list.len() > 0 {
        path::lemma_joined_names(list);
        assert(text::without_leading(c, '/') == c);
        assert(path::plain_name(list[0]));
        assert(path::names_without_dot(c) == list);
    } else {
        assert(c =~= Seq::<char>::empty());
        assert(path::spans_from(c, 0) =~= Seq::<(int, int)>::empty());
        assert(path::names(c) =~= list);
        assert(text::without_leading(c, '/') == c);
    }
}

/// A member is the same member whether the archive spells its path plainly,
/// behind `./` or behind `/`.
pub proof fn law_member_spelling_does_not_matter(p: Seq<char>)
    ensures
        canonical(seq!['/'] + p) == canonical(p),
        !path::is_absolute(p) ==> canonical(seq!['.', '/'] + p) == canonical(p),
{
    let slashed = seq!['/'] + p;
    assert(slashed.drop_first() =~= p);
    assert(text::without_leading(slashed, '/') == text::without_leading(p, '/'));
    if !path::is_absolute(p) {
        let dotted = seq!['.', '/'] + p;
        assert(dotted[0] == '.');
        assert(text::without_leading(dotted, '/') == dotted);
        assert(text::without_leading(p, '/') == p);
        path::lemma_names_behind_dot(p);
        let all = path::names(dotted);
        assert(all[0] == seq!['.']);
        assert(path::names_without_dot(dotted) =~= path::names_without_dot(p));
    }
}

/// Every spelling of a path below `fragment/` is judged alike: plain, behind
/// `./` and behind `/`, the check gives the same canonical path.
pub proof fn law_entry_check_ignores_spelling(p: Seq<char>, kind: EntryKind)
    requires
        "fragment/"@.is_prefix_of(p),
        !text::occurs_in(".."@, p),
        !is_link(kind),
    ensures
        checked_entry(vstd::utf8::encode_utf8(p), kind) == Ok::<Seq<char>, Seq<char>>(canonical(p)),
        checked_entry(vstd::utf8::encode_utf8(seq!['.', '/'] + p), kind) == Ok::<
            Seq<char>,
            Seq<char>,
        >(canonical(p)),
        checked_entry(vstd::utf8::encode_utf8(seq!['/'] + p), kind) == Ok::<Seq<char>, Seq<char>>(
            canonical(p),
        ),
{
    broadcast use {vstd::utf8::encode_utf8_valid_utf8, vstd::utf8::encode_utf8_decode_utf8};

    reveal_strlit("fragment/");
    reveal_strlit("/fragment/");
    let head = "fragment/"@;
    assert(p[0] == head[0]);
    let slashed = seq!['/'] + p;
    let dotted = seq!['.', '/'] + p;
    law_member_spelling_does_not_matter(p);
    lemma_no_dots(p);
    lemma_no_dots(slashed);
    lemma_no_dots(dotted);
    assert(!text::occurs_in(".."@, slashed)) by {
        if text::occurs_in(".."@, slashed) {
            let i = choose|i: int|
                0 <= i < slashed.len() - 1 && #[trigger] slashed[i] == '.' && slashed[i + 1] == '.';
            assert(slashed[i] == p[i - 1] && slashed[i + 1] == p[i]);
        }
    }
    assert(!text::occurs_in(".."@, dotted)) by {
        if text::occurs_in(".."@, dotted) {
            let i = choose|i: int|
                0 <= i < dotted.len() - 1 && #[trigger] dotted[i] == '.' && dotted[i + 1] == '.';
            assert(i >= 2);
            assert(dotted[i] == p[i - 2] && dotted[i + 1] == p[i - 1]);
        }
    }
    assert("/fragment/"@ =~= seq!['/'] + head);
    assert("/fragment/"@.is_prefix_of(slashed)) by {
        assert forall|k: int| 0 <= k < "/fragment/"@.len() implies "/fragment/"@[k]
            == slashed[k] by {
            if k > 0 {
                assert(head[k - 1] == p[k - 1]);
            }
        }
    }
}

/// What is left of a path behind `base`, joined onto a directory, lies below
/// that directory.
proof fn lemma_place_under(p: Seq<char>, base: Seq<char>, dir: Seq<char>)
    requires
        path::ordinary_path(p),
        !path::is_absolute(base),
        path::stripped(p, base) is Some,
        dir.len() > 0,
    ensures
        path::components(path::path_join(dir, path::stripped(p, base)->0)) == path::components(dir)
            + path::names(p).skip(path::names(base).len() as int),
{
    path::lemma_ordinary_path(p);
    path::lemma_stripped_ordinary(p, base);
    let n = path::names(base).len() as int;
    let rest = path::names(p).skip(n);
    assert forall|k: int| 0 <= k < rest.len() implies path::plain_name(#[trigger] rest[k]) by {
        assert(rest[k] == path::names(p)[k + n]);
    }
    path::lemma_join_names(dir, rest);
}

/// Whatever a layer's member is named, where it is written lies below the
/// directory that its fragment is materialized in.
pub proof fn law_payload_stays_below_its_directory(
    path: Seq<u8>,
    kind: EntryKind,
    dest_dir: Seq<char>,
    mounts: MountMaterialization,
)
    ensures
        payload_entry(path, kind, dest_dir, mounts) matches Ok(Some(place)) ==> path::lies_under(
            place,
            dest_dir,
        ),
{
    if let Ok(Some(place)) = payload_entry(path, kind, dest_dir, mounts) {
        let s = vstd::utf8::decode_utf8(path);
        let p = canonical(s);
        law_canonical_paths_are_ordinary(s);
        reveal_strlit("fragment/tree");
        reveal_strlit("fragment/hooks");
        reveal_strlit("fragment/mount");
        reveal_strlit("tree");
        reveal_strlit("hooks");
        reveal_strlit("mount");
        let (base, root) = if path::stripped(p, "fragment/tree"@) is Some {
            ("fragment/tree"@, "tree"@)
        } else if path::stripped(p, "fragment/hooks"@) is Some {
            ("fragment/hooks"@, "hooks"@)
        } else {
            ("fragment/mount"@, "mount"@)
        };
        if p.len() == 0 {
            assert(path::spans_from(p, 0) =~= Seq::<(int, int)>::empty());
            assert(path::components(p) =~= Seq::<Seq<char>>::empty());
            lemma_named(base);
            assert(false);
        }
        let dir = path::path_join(dest_dir, root);
        assert(path::plain_name(root)) by {
            assert(!root.contains('/'));
        }
        assert(root =~= text::joined(seq![root], seq!['/']));
        assert(dir.len() > 0);
        path::lemma_join_child(dest_dir, root);
        lemma_place_under(p, base, dir);
        assert(path::components(dest_dir).is_prefix_of(path::components(place)));
    }
}

/// A path that starts with anything but a separator names something.
proof fn lemma_named(p: Seq<char>)
    requires
        p.len() > 0,
        p[0] != '/',
    ensures
        path::components(p).len() > 0,
{
    text::lemma_find_from(p, '/', 0);
    assert(!path::unnamed(p, 0, text::find_from(p, '/', 0)));
}

/// The two members are the same member, however the archives spell its path.
pub open spec fn same_member(
    a: Result<MemberView, Seq<char>>,
    b: Result<MemberView, Seq<char>>,
) -> bool {
    match (a, b) {
        (Ok(x), Ok(y)) => {
            &&& checked_entry(x.path, kind_of(x.kind)) == checked_entry(y.path, kind_of(y.kind))
            &&& x.kind == y.kind
            &&& x.size == y.size
            &&& x.mode == y.mode
        },
        (Err(x), Err(y)) => x == y,
        _ => false,
    }
}

/// Each member of the one layer is the same as the member of the other at its
/// place.
pub open spec fn same_members(
    a: Seq<Result<MemberView, Seq<char>>>,
    b: Seq<Result<MemberView, Seq<char>>>,
) -> bool {
    &&& a.len() == b.len()
    &&& forall|k: int| 0 <= k < a.len() ==> same_member(#[trigger] a[k], b[k])
}

/// What is found in a layer, from place `i` on, does not depend on spelling.
proof fn lemma_scans_alike(
    a: Seq<Result<MemberView, Seq<char>>>,
    b: Seq<Result<MemberView, Seq<char>>>,
    i: int,
    found: Option<int>,
    listing: ListingView,
    wanted: Seq<(int, Seq<char>)>,
)
    requires
        0 <= i,
        same_members(a, b),
    ensures
        toml_search_from(a, i, found) == toml_search_from(b, i, found),
        listing_from(a, i, listing) == listing_from(b, i, listing),
        repo_search_from(a, i, wanted) == repo_search_from(b, i, wanted),
    decreases a.len() - i,
{
    if i < a.len() {
        assert(same_member(a[i], b[i]));
        lemma_scans_alike(a, b, i + 1, found, listing, wanted);
        lemma_scans_alike(a, b, i + 1, Some(i), listing, wanted);
        if let (Ok(m), Ok(p)) = (a[i], admitted(a[i], ""@)) {
            if let Ok(more) = listed(listing, p, m) {
                lemma_scans_alike(a, b, i + 1, found, more, wanted);
            }
            if let Some(name) = path::file_name_of(p) {
                lemma_scans_alike(a, b, i + 1, found, listing, wanted.push((i, name)));
            }
        }
    }
}

/// Metadata, tree, hooks, mounts and repositories are found in a layer
/// whichever way its archive spells member paths.
pub proof fn law_layers_are_read_alike_in_every_spelling(
    a: Seq<Result<MemberView, Seq<char>>>,
    b: Seq<Result<MemberView, Seq<char>>>,
)
    requires
        same_members(a, b),
    ensures
        toml_search_from(a, 0, None) == toml_search_from(b, 0, None),
        listing_from(a, 0, empty_listing()) == listing_from(b, 0, empty_listing()),
        repo_search_from(a, 0, Seq::empty()) == repo_search_from(b, 0, Seq::empty()),
{
    lemma_scans_alike(a, b, 0, None, empty_listing(), Seq::empty());
}

/// Text behind an ASCII character is text when and as it is without it.
proof fn lemma_ascii_first(c: u8, rest: Seq<u8>)
    requires
        c < 0x80,
    ensures
        vstd::utf8::valid_utf8(seq![c] + rest) == vstd::utf8::valid_utf8(rest),
        vstd::utf8::valid_utf8(rest) ==> vstd::utf8::decode_utf8(seq![c] + rest) == seq![c as char]
            + vstd::utf8::decode_utf8(rest),
{
    let all = seq![c] + rest;
    assert(all[0] == c);
    assert(c & 0x7f == c) by (bit_vector)
        requires
            c < 0x80,
    ;
    assert(vstd::utf8::pop_first_scalar(all) =~= rest);
}

/// The bytes of `fragment/`.
pub open spec fn fragment_prefix() -> Seq<u8> {
    seq![0x66, 0x72, 0x61, 0x67, 0x6d, 0x65, 0x6e, 0x74, 0x2f]
}

/// `path` is the path `plain` as it stands, behind `./` or behind `/`.
pub open spec fn spells(plain: Seq<u8>, path: Seq<u8>) -> bool {
    path == plain || path == seq![0x2eu8, 0x2f] + plain || path == seq![0x2fu8] + plain
}

/// The two paths spell one path below `fragment/`.
pub open spec fn respelled(a: Seq<u8>, b: Seq<u8>) -> bool {
    exists|plain: Seq<u8>|
        {
            &&& #[trigger] fragment_prefix().is_prefix_of(plain)
            &&& spells(plain, a)
            &&& spells(plain, b)
        }
}

/// Both are refused, or both are accepted and give the same.
pub open spec fn alike<T>(
    a: Result<T, Seq<char>>,
    b: Result<T, Seq<char>>,
) -> bool {
    match (a, b) {
        (Ok(x), Ok(y)) => x == y,
        (Err(_), Err(_)) => true,
        _ => false,
    }
}

/// A spelling of a path below `fragment/` is refused exactly when the plain
/// path is, and else has its canonical form.
proof fn lemma_spelling_alike(plain: Seq<u8>, path: Seq<u8>, kind: EntryKind)
    requires
        fragment_prefix().is_prefix_of(plain),
        spells(plain, path),
    ensures
        alike(checked_entry(plain, kind), checked_entry(path, kind)),
{
    let head = fragment_prefix();
    let rest = plain.skip(head.len() as int);
    assert(plain =~= head + rest);
    lemma_ascii_first(0x2f, plain);
    lemma_ascii_first(0x2e, seq![0x2fu8] + plain);
    assert(seq![0x2eu8] + (seq![0x2fu8] + plain) =~= seq![0x2eu8, 0x2f] + plain);
    if vstd::utf8::valid_utf8(plain) {
        let p = vstd::utf8::decode_utf8(plain);
        lemma_fragment_text(rest);
        assert(plain =~= fragment_prefix() + rest);
        let slashed = seq!['/'] + p;
        let dotted = seq!['.', '/'] + p;
        assert(seq![0x2fu8 as char] =~= seq!['/']);
        assert(seq![0x2eu8 as char] + (seq!['/'] + p) =~= dotted);
        lemma_no_dots(p);
        lemma_no_dots(slashed);
        lemma_no_dots(dotted);
        if text::occurs_in(".."@, p) {
            let i = choose|i: int|
                0 <= i < p.len() - 1 && #[trigger] p[i] == '.' && p[i + 1] == '.';
            assert(slashed[i + 1] == '.' && slashed[i + 2] == '.');
            assert(dotted[i + 2] == '.' && dotted[i + 3] == '.');
        } else {
            if !is_link(kind) {
                broadcast use vstd::utf8::decode_utf8_encode_utf8;

                law_entry_check_ignores_spelling(p, kind);
                assert(vstd::utf8::encode_utf8(p) == plain);
                let slashed_bytes = seq![0x2fu8] + plain;
                let dotted_bytes = seq![0x2eu8, 0x2f] + plain;
                assert(vstd::utf8::encode_utf8(slashed) == slashed_bytes);
                assert(vstd::utf8::encode_utf8(dotted) == dotted_bytes);
            }
        }
    }
}

/// Text that starts with the bytes of `fragment/` starts with that.
proof fn lemma_fragment_text(rest: Seq<u8>)
    requires
        vstd::utf8::valid_utf8(fragment_prefix() + rest),
    ensures
        "fragment/"@.is_prefix_of(vstd::utf8::decode_utf8(fragment_prefix() + rest)),
{
    reveal_strlit("fragment/");
    let b = fragment_prefix();
    let t1 = seq![b[8]] + rest;
    let t2 = seq![b[7]] + t1;
    let t3 = seq![b[6]] + t2;
    let t4 = seq![b[5]] + t3;
    let t5 = seq![b[4]] + t4;
    let t6 = seq![b[3]] + t5;
    let t7 = seq![b[2]] + t6;
    let t8 = seq![b[1]] + t7;
    let t9 = seq![b[0]] + t8;
    assert(t9 =~= b + rest);
    lemma_ascii_first(b[8], rest);
    lemma_ascii_first(b[7], t1);
    lemma_ascii_first(b[6], t2);
    lemma_ascii_first(b[5], t3);
    lemma_ascii_first(b[4], t4);
    lemma_ascii_first(b[3], t5);
    lemma_ascii_first(b[2], t6);
    lemma_ascii_first(b[1], t7);
    lemma_ascii_first(b[0], t8);
    let d = vstd::utf8::decode_utf8(rest);
    assert(vstd::utf8::decode_utf8(b + rest) =~= "fragment/"@ + d);
}

/// The two members are one member, whose path the archives may spell
/// differently.
pub open spec fn respelled_member(
    a: Result<MemberView, Seq<char>>,
    b: Result<MemberView, Seq<char>>,
) -> bool {
    match (a, b) {
        (Ok(x), Ok(y)) => {
            &&& x.path == y.path || respelled(x.path, y.path)
            &&& x.kind == y.kind
            &&& x.size == y.size
            &&& x.mode == y.mode
        },
        (Err(x), Err(y)) => x == y,
        _ => false,
    }
}

/// Each member of the one layer is the member of the other at its place, with
/// paths that may be spelled differently.
pub open spec fn respelled_members(
    a: Seq<Result<MemberView, Seq<char>>>,
    b: Seq<Result<MemberView, Seq<char>>>,
) -> bool {
    &&& a.len() == b.len()
    &&& forall|k: int| 0 <= k < a.len() ==> respelled_member(#[trigger] a[k], b[k])
}

/// A respelled member is refused in both layers or has one canonical path.
proof fn lemma_respelled_alike(
    a: Result<MemberView, Seq<char>>,
    b: Result<MemberView, Seq<char>>,
    context: Seq<char>,
)
    requires
        respelled_member(a, b),
    ensures
        alike(admitted(a, context), admitted(b, context)),
{
    if let (Ok(x), Ok(y)) = (a, b) {
        if x.path != y.path {
            let plain = choose|plain: Seq<u8>|
                {
                    &&& #[trigger] fragment_prefix().is_prefix_of(plain)
                    &&& spells(plain, x.path)
                    &&& spells(plain, y.path)
                };
            lemma_spelling_alike(plain, x.path, kind_of(x.kind));
            lemma_spelling_alike(plain, y.path, kind_of(x.kind));
        }
    }
}

/// The two searches found the same, and both ended early or neither.
pub open spec fn same_search<T>(a: (T, Option<Seq<char>>), b: (T, Option<Seq<char>>)) -> bool {
    (a.1 is None && b.1 is None && a.0 == b.0) || (a.1 is Some && b.1 is Some)
}

/// What is found in respelled layers, from place `i` on, differs in nothing
/// but the message of a refusal.
proof fn lemma_respelled_scans(
    a: Seq<Result<MemberView, Seq<char>>>,
    b: Seq<Result<MemberView, Seq<char>>>,
    i: int,
    found: Option<int>,
    listing: ListingView,
    wanted: Seq<(int, Seq<char>)>,
)
    requires
        0 <= i,
        respelled_members(a, b),
    ensures
        same_search(toml_search_from(a, i, found), toml_search_from(b, i, found)),
        alike(listing_from(a, i, listing), listing_from(b, i, listing)),
        same_search(repo_search_from(a, i, wanted), repo_search_from(b, i, wanted)),
    decreases a.len() - i,
{
    if i < a.len() {
        assert(respelled_member(a[i], b[i]));
        lemma_respelled_alike(a[i], b[i], ""@);
        lemma_respelled_alike(a[i], b[i], "reading tar entry: "@);
        lemma_respelled_scans(a, b, i + 1, found, listing, wanted);
        lemma_respelled_scans(a, b, i + 1, Some(i), listing, wanted);
        if let (Ok(m), Ok(p)) = (a[i], admitted(a[i], ""@)) {
            if let Ok(more) = listed(listing, p, m) {
                lemma_respelled_scans(a, b, i + 1, found, more, wanted);
            }
            if let Some(name) = path::file_name_of(p) {
                lemma_respelled_scans(a, b, i + 1, found, listing, wanted.push((i, name)));
            }
        }
    }
}

/// Layers that differ in nothing but how their archives spell member paths
/// below `fragment/` give the same metadata, the same listing and the same
/// repositories, or are refused alike.
pub proof fn law_respelled_layers_are_read_alike(
    layer_a: Seq<u8>,
    layer_b: Seq<u8>,
    a: Seq<Result<MemberView, Seq<char>>>,
    b: Seq<Result<MemberView, Seq<char>>>,
)
    requires
        respelled_members(a, b),
        forall|k: nat| #[trigger] member_content(layer_a, k) == member_content(layer_b, k),
    ensures
        alike(layer_toml(layer_a, Ok(a)), layer_toml(layer_b, Ok(b))),
        alike(layer_listing(Ok(a)), layer_listing(Ok(b))),
        alike(layer_repos(layer_a, Ok(a)), layer_repos(layer_b, Ok(b))),
{
    lemma_respelled_scans(a, b, 0, None, empty_listing(), Seq::empty());
    let wanted = repo_search_from(a, 0, Seq::empty());
    let found = wanted.0.map_values(|m: (int, Seq<char>)| member_content(layer_a, m.0 as nat));
    assert(found =~= wanted.0.map_values(
        |m: (int, Seq<char>)| member_content(layer_b, m.0 as nat),
    ));
}

/// A member is accepted exactly when its name is text without two dots next
/// to each other, not an absolute path elsewhere than below `/fragment/`, and
/// the member is no link. What an accepted member is known by is a relative
/// path of ordinary names: those of its path, without a `.` in front. A
/// refusal says why, and shows the path.
pub proof fn law_accepted_members(path: Seq<u8>, type_byte: u8)
    ensures
        ({
            let p = vstd::utf8::decode_utf8(path);
            let climbs = exists|i: int|
                0 <= i < p.len() - 1 && #[trigger] p[i] == '.' && p[i + 1] == '.';
            let astray = p.len() > 0 && p[0] == '/' && !"/fragment/"@.is_prefix_of(p);
            match checked_entry(path, kind_of(type_byte)) {
                Ok(c) => {
                    &&& vstd::utf8::valid_utf8(path)
                    &&& !climbs
                    &&& !astray
                    &&& type_byte != 0x31
                    &&& type_byte != 0x32
                    &&& c.len() == 0 || path::ordinary_path(c)
                    &&& path::names(c) == path::names_without_dot(text::without_leading(p, '/'))
                },
                Err(e) => {
                    ||| !vstd::utf8::valid_utf8(path) && e
                        == "non-UTF-8 entry name rejected in fragment layer: "@ + text::escaped(
                        text::lossy_decoded(path),
                    )
                    ||| vstd::utf8::valid_utf8(path) && climbs && e
                        == "path traversal detected in fragment layer: "@ + p
                    ||| vstd::utf8::valid_utf8(path) && !climbs && astray && e
                        == "absolute path outside /fragment/ rejected in fragment layer: "@ + p
                    ||| {
                        &&& vstd::utf8::valid_utf8(path)
                        &&& !climbs
                        &&& !astray
                        &&& type_byte == 0x31 || type_byte == 0x32
                        &&& e == "symlink or hardlink rejected in fragment layer: "@ + p
                    }
                },
            }
        }),
{
    let p = vstd::utf8::decode_utf8(path);
    lemma_no_dots(p);
    if checked_entry(path, kind_of(type_byte)) is Ok {
        law_canonical_paths_are_ordinary(p);
    }
}

/// A path of ordinary names is its own canonical form, and so it is known
/// whether it is written as it is, behind `./` or behind `/`.
pub proof fn law_canonical_form_of_an_ordinary_path(p: Seq<char>)
    requires
        path::ordinary_path(p),
        !text::occurs_in(".."@, p),
    ensures
        canonical(p) == p,
        canonical(seq!['.', '/'] + p) == p,
        canonical(seq!['/'] + p) == p,
{
    path::lemma_ordinary_path(p);
    assert(text::without_leading(p, '/') == p);
    assert(path::names(p)[0] != seq!['.']) by {
        assert(path::plain_name(path::names(p)[0]));
    }
    assert(canonical(p) == p);
    law_member_spelling_does_not_matter(p);
}

/// What a member of a layer is known by, where it is accepted.
pub open spec fn accepted_path(member: Result<MemberView, Seq<char>>) -> Option<Seq<char>> {
    match member {
        Ok(m) => match checked_entry(m.path, kind_of(m.kind)) {
            Ok(p) => Some(p),
            Err(_) => None,
        },
        Err(_) => None,
    }
}

/// A member that is listed: a regular file.
pub open spec fn regular_member(member: Result<MemberView, Seq<char>>) -> bool {
    member matches Ok(m) && m.kind == 0x30
}

/// The member is the entrypoint of the hooks, as a regular file.
pub open spec fn entrypoint_member(member: Result<MemberView, Seq<char>>) -> bool {
    regular_member(member) && accepted_path(member) == Some("fragment/hooks/entrypoint"@)
}

/// The member lies in `mount/`, or is that directory.
pub open spec fn mount_member(member: Result<MemberView, Seq<char>>) -> bool {
    &&& member matches Ok(m)
    &&& accepted_path(member) matches Some(p)
    &&& "fragment/mount/"@.is_prefix_of(p) || (p == "fragment/mount"@ && m.kind == 0x35)
}

proof fn lemma_listing(
    members: Seq<Result<MemberView, Seq<char>>>,
    i: int,
    before: ListingView,
)
    requires
        0 <= i <= members.len(),
    ensures
        match listing_from(members, i, before) {
            Ok(l) => {
                &&& forall|k: int|
                    i <= k < members.len() ==> accepted_path(#[trigger] members[k]) is Some
                &&& forall|k: int|
                    i <= k < members.len() && entrypoint_member(#[trigger] members[k])
                        ==> members[k]->Ok_0.mode is Ok
                &&& l.paths == before.paths + members.skip(i).filter(
                    |m: Result<MemberView, Seq<char>>| regular_member(m),
                ).map_values(|m: Result<MemberView, Seq<char>>| accepted_path(m)->0)
                &&& l.has_mount_dir <==> before.has_mount_dir || exists|k: int|
                    i <= k < members.len() && mount_member(#[trigger] members[k])
                &&& (exists|k: int|
                    {
                        &&& i <= k < members.len()
                        &&& entrypoint_member(#[trigger] members[k])
                        &&& members[k]->Ok_0.mode is Ok
                        &&& l.entrypoint_mode == Some(members[k]->Ok_0.mode->Ok_0)
                        &&& forall|j: int|
                            k < j < members.len() ==> !entrypoint_member(#[trigger] members[j])
                    }) || (l.entrypoint_mode == before.entrypoint_mode && forall|k: int|
                    i <= k < members.len() ==> !entrypoint_member(#[trigger] members[k]))
            },
            Err(_) => exists|k: int|
                i <= k < members.len() && (accepted_path(#[trigger] members[k]) is None || (
                entrypoint_member(members[k]) && members[k]->Ok_0.mode is Err)),
        },
    decreases members.len() - i,
{
    let regular = |m: Result<MemberView, Seq<char>>| regular_member(m);
    let known = |m: Result<MemberView, Seq<char>>| accepted_path(m)->0;
    if i >= members.len() {
        assert(members.skip(i) =~= Seq::empty());
        reveal(Seq::filter);
        assert(before.paths + members.skip(i).filter(regular).map_values(known) =~= before.paths);
    } else if accepted_path(members[i]) is Some {
        let m = members[i]->Ok_0;
        let p = accepted_path(members[i])->0;
        assert(admitted(members[i], ""@) == Ok::<Seq<char>, Seq<char>>(p));
        assert(kind_of(m.kind) == EntryKind::Regular <==> m.kind == 0x30);
        let rest = members.skip(i + 1);
        assert(members.skip(i) =~= seq![members[i]] + rest);
        Seq::filter_distributes_over_add(seq![members[i]], rest, regular);
        assert(seq![members[i]].filter(regular) =~= if regular_member(members[i]) {
            seq![members[i]]
        } else {
            Seq::empty()
        }) by {
            reveal_with_fuel(Seq::filter, 2);
            assert(seq![members[i]].drop_last() =~= Seq::empty());
        }
        match listed(before, p, m) {
            Ok(more) => {
                lemma_listing(members, i + 1, more);
                if let Ok(l) = listing_from(members, i, before) {
                    assert(l.paths =~= before.paths + members.skip(i).filter(regular).map_values(
                        known,
                    ));
                    assert(mount_entry(p, kind_of(m.kind)) == mount_member(members[i]));
                }
            },
            Err(_) => {
                assert(entrypoint_member(members[i]));
            },
        }
    } else {
        assert(admitted(members[i], ""@) is Err);
    }
}

/// A layer is listed exactly when every member is accepted and the mode of
/// its hooks entrypoint can be read. The listing then holds the path of every
/// regular file, in the order of the archive and nothing else, knows of a
/// `mount/` directory exactly when some member lies in it or is it, and
/// carries the mode of the last hooks entrypoint, if there is one.
pub proof fn law_listing_holds_every_regular_file(
    members: Seq<Result<MemberView, Seq<char>>>,
)
    ensures
        layer_listing(Ok(members)) is Ok <==> forall|k: int|
            0 <= k < members.len() ==> {
                &&& accepted_path(#[trigger] members[k]) is Some
                &&& entrypoint_member(members[k]) ==> members[k]->Ok_0.mode is Ok
            },
        layer_listing(Ok(members)) matches Ok(l) ==> {
            &&& l.paths == members.filter(
                |m: Result<MemberView, Seq<char>>| regular_member(m),
            ).map_values(|m: Result<MemberView, Seq<char>>| accepted_path(m)->0)
            &&& l.has_mount_dir <==> exists|k: int|
                0 <= k < members.len() && mount_member(#[trigger] members[k])
            &&& l.entrypoint_mode is None <==> forall|k: int|
                0 <= k < members.len() ==> !entrypoint_member(#[trigger] members[k])
            &&& l.entrypoint_mode matches Some(mode) ==> exists|k: int|
                {
                    &&& 0 <= k < members.len()
                    &&& entrypoint_member(#[trigger] members[k])
                    &&& members[k]->Ok_0.mode == Ok::<u32, Seq<char>>(mode)
                    &&& forall|j: int|
                        k < j < members.len() ==> !entrypoint_member(#[trigger] members[j])
                }
        },
{
    lemma_listing(members, 0, empty_listing());
    assert(members.skip(0) =~= members);
    if let Ok(l) = layer_listing(Ok(members)) {
        let paths = members.filter(
            |m: Result<MemberView, Seq<char>>| regular_member(m),
        ).map_values(|m: Result<MemberView, Seq<char>>| accepted_path(m)->0);
        assert(Seq::<Seq<char>>::empty() + paths =~= paths);
        if exists|k: int|
            {
                &&& 0 <= k < members.len()
                &&& entrypoint_member(#[trigger] members[k])
                &&& members[k]->Ok_0.mode is Ok
                &&& l.entrypoint_mode == Some(members[k]->Ok_0.mode->Ok_0)
                &&& forall|j: int|
                    k < j < members.len() ==> !entrypoint_member(#[trigger] members[j])
            } {
            let k = choose|k: int|
                {
                    &&& 0 <= k < members.len()
                    &&& entrypoint_member(#[trigger] members[k])
                    &&& members[k]->Ok_0.mode is Ok
                    &&& l.entrypoint_mode == Some(members[k]->Ok_0.mode->Ok_0)
                    &&& forall|j: int|
                        k < j < members.len() ==> !entrypoint_member(#[trigger] members[j])
                };
            assert(entrypoint_member(members[k]));
            assert(members[k]->Ok_0.mode == Ok::<u32, Seq<char>>(l.entrypoint_mode->0));
        }
    }
}

/// The member is a `fragment.toml`.
pub open spec fn toml_member(member: Result<MemberView, Seq<char>>) -> bool {
    accepted_path(member) == Some("fragment/fragment.toml"@)
}

/// The member is not too large to be read as `fragment.toml`.
pub open spec fn readable_size(member: Result<MemberView, Seq<char>>) -> bool {
    member matches Ok(m) && m.size matches Ok(size) && size <= 65536
}

proof fn lemma_toml_search(
    members: Seq<Result<MemberView, Seq<char>>>,
    i: int,
    found: Option<int>,
)
    requires
        0 <= i <= members.len(),
    ensures
        ({
            let out = toml_search_from(members, i, found);
            &&& out.1 is None ==> {
                &&& forall|k: int|
                    i <= k < members.len() ==> accepted_path(#[trigger] members[k]) is Some
                &&& forall|k: int|
                    i <= k < members.len() && toml_member(#[trigger] members[k]) ==> {
                        &&& found is None
                        &&& out.0 == Some(k)
                        &&& readable_size(members[k])
                    }
                &&& (out.0 == found && forall|k: int|
                    i <= k < members.len() ==> !toml_member(#[trigger] members[k])) || (
                out.0 matches Some(k) && i <= k < members.len() && toml_member(members[k]))
            }
            &&& out.1 is Some ==> {
                ||| exists|k: int|
                    i <= k < members.len() && (accepted_path(#[trigger] members[k]) is None || (
                    toml_member(members[k]) && (found is Some || !readable_size(members[k]))))
                ||| exists|j: int, k: int|
                    i <= j < k < members.len() && toml_member(#[trigger] members[j])
                        && toml_member(#[trigger] members[k])
            }
        }),
    decreases members.len() - i,
{
    if i < members.len() && accepted_path(members[i]) is Some {
        let p = accepted_path(members[i])->0;
        assert(admitted(members[i], "reading tar entry: "@) == Ok::<Seq<char>, Seq<char>>(p));
        if p != FRAGMENT_TOML_PATH@ {
            lemma_toml_search(members, i + 1, found);
        } else {
            assert(toml_member(members[i]));
            if found is None && readable_size(members[i]) {
                lemma_toml_search(members, i + 1, Some(i));
                let out = toml_search_from(members, i + 1, Some(i));
                assert(toml_search_from(members, i, found) == out);
                if out.1 is Some {
                    if exists|k: int|
                        i + 1 <= k < members.len() && accepted_path(#[trigger] members[k])
                            is None {
                    } else if exists|k: int|
                        i + 1 <= k < members.len() && toml_member(#[trigger] members[k]) {
                        let k = choose|k: int|
                            i + 1 <= k < members.len() && toml_member(#[trigger] members[k]);
                        assert(toml_member(members[i]) && toml_member(members[k]));
                    }
                }
            }
        }
    } else if i < members.len() {
        assert(admitted(members[i], "reading tar entry: "@) is Err);
    }
}

/// A layer gives a `fragment.toml` exactly when every member is accepted, one
/// of them and no other is `fragment/fragment.toml`, that one is at most
/// 65536 bytes large, and it can be read. What the layer gives is what that
/// member holds.
pub proof fn law_layer_gives_its_one_fragment_toml(
    layer: Seq<u8>,
    members: Seq<Result<MemberView, Seq<char>>>,
    toml: Seq<char>,
)
    ensures
        layer_toml(layer, Ok(members)) == Ok::<Seq<char>, Seq<char>>(toml) <==> {
            &&& forall|k: int|
                0 <= k < members.len() ==> accepted_path(#[trigger] members[k]) is Some
            &&& exists|k: int|
                {
                    &&& 0 <= k < members.len()
                    &&& toml_member(#[trigger] members[k])
                    &&& readable_size(members[k])
                    &&& member_content(layer, k as nat) == Ok::<Seq<char>, Seq<char>>(toml)
                    &&& forall|j: int|
                        0 <= j < members.len() && toml_member(#[trigger] members[j]) ==> j == k
                }
        },
{
    lemma_toml_search(members, 0, None);
    let out = toml_search_from(members, 0, None);
    if layer_toml(layer, Ok(members)) == Ok::<Seq<char>, Seq<char>>(toml) {
        let k = out.0->0;
        assert(toml_member(members[k]));
        assert(member_content(layer, k as nat) == Ok::<Seq<char>, Seq<char>>(toml));
    }
    if exists|k: int|
        {
            &&& 0 <= k < members.len()
            &&& toml_member(#[trigger] members[k])
            &&& readable_size(members[k])
            &&& member_content(layer, k as nat) == Ok::<Seq<char>, Seq<char>>(toml)
            &&& forall|j: int|
                0 <= j < members.len() && toml_member(#[trigger] members[j]) ==> j == k
        } && forall|k: int|
        0 <= k < members.len() ==> accepted_path(#[trigger] members[k]) is Some {
        let k = choose|k: int|
            {
                &&& 0 <= k < members.len()
                &&& toml_member(#[trigger] members[k])
                &&& readable_size(members[k])
                &&& member_content(layer, k as nat) == Ok::<Seq<char>, Seq<char>>(toml)
                &&& forall|j: int|
                    0 <= j < members.len() && toml_member(#[trigger] members[j]) ==> j == k
            };
        assert(out.1 is None);
        assert(out.0 == Some(k));
    }
}

/// The name of the `.repo` file that a member is, if it is one: it lies
/// somewhere below a directory `yum.repos.d`, and its name ends in `.repo`.
pub open spec fn repo_member_name(member: Result<MemberView, Seq<char>>) -> Option<Seq<char>> {
    match accepted_path(member) {
        Some(p) => if (exists|i: int|
            0 <= i <= p.len() && "yum.repos.d/"@.is_prefix_of(#[trigger] p.skip(i)))
            && ".repo"@.is_suffix_of(p) {
            path::file_name_of(p)
        } else {
            None
        },
        None => None,
    }
}

proof fn lemma_occurs(needle: Seq<char>, s: Seq<char>)
    ensures
        text::occurs_in(needle, s) <==> exists|i: int|
            0 <= i <= s.len() && needle.is_prefix_of(#[trigger] s.skip(i)),
{
    if text::occurs_in(needle, s) {
        let i = choose|i: int| text::occurs_at(needle, s, i);
        assert(s.skip(i).subrange(0, needle.len() as int) =~= s.subrange(i, i + needle.len()));
        assert(needle.is_prefix_of(s.skip(i)));
    }
    if exists|i: int| 0 <= i <= s.len() && needle.is_prefix_of(#[trigger] s.skip(i)) {
        let i = choose|i: int| 0 <= i <= s.len() && needle.is_prefix_of(#[trigger] s.skip(i));
        assert(s.skip(i).subrange(0, needle.len() as int) =~= s.subrange(i, i + needle.len()));
        assert(text::occurs_at(needle, s, i));
    }
}

proof fn lemma_repo_search(
    members: Seq<Result<MemberView, Seq<char>>>,
    i: int,
    wanted: Seq<(int, Seq<char>)>,
)
    requires
        0 <= i <= members.len(),
        forall|w: int| 0 <= w < wanted.len() ==> (#[trigger] wanted[w]).0 < i,
        forall|v: int, w: int|
            0 <= v < w < wanted.len() ==> (#[trigger] wanted[v]).0 < (#[trigger] wanted[w]).0,
    ensures
        ({
            let out = repo_search_from(members, i, wanted);
            &&& out.1 is None <==> forall|k: int|
                i <= k < members.len() ==> accepted_path(#[trigger] members[k]) is Some
            &&& wanted.len() <= out.0.len()
            &&& forall|w: int| 0 <= w < wanted.len() ==> #[trigger] out.0[w] == wanted[w]
            &&& forall|v: int, w: int|
                0 <= v < w < out.0.len() ==> (#[trigger] out.0[v]).0 < (#[trigger] out.0[w]).0
            &&& forall|w: int|
                wanted.len() <= w < out.0.len() ==> {
                    &&& i <= (#[trigger] out.0[w]).0 < members.len()
                    &&& repo_member_name(members[out.0[w].0]) == Some(out.0[w].1)
                }
            &&& out.1 is None ==> forall|k: int|
                i <= k < members.len() && repo_member_name(#[trigger] members[k]) is Some
                    ==> exists|w: int|
                    wanted.len() <= w < out.0.len() && (#[trigger] out.0[w]).0 == k
        }),
    decreases members.len() - i,
{
    if i < members.len() && accepted_path(members[i]) is Some {
        let p = accepted_path(members[i])->0;
        assert(admitted(members[i], ""@) == Ok::<Seq<char>, Seq<char>>(p));
        lemma_occurs("yum.repos.d/"@, p);
        match path::file_name_of(p) {
            Some(name) if repo_file_path(p) => {
                let more = wanted.push((i, name));
                assert(repo_member_name(members[i]) == Some(name));
                lemma_repo_search(members, i + 1, more);
                let out = repo_search_from(members, i + 1, more);
                assert(out.0[wanted.len() as int] == more[wanted.len() as int]);
                assert forall|w: int| 0 <= w < wanted.len() implies #[trigger] out.0[w]
                    == wanted[w] by {
                    assert(more[w] == wanted[w]);
                }
            },
            _ => {
                assert(repo_member_name(members[i]) is None);
                lemma_repo_search(members, i + 1, wanted);
            },
        }
    } else if i < members.len() {
        assert(admitted(members[i], ""@) is Err);
    }
}

proof fn lemma_repo_files(
    wanted: Seq<(int, Seq<char>)>,
    contents: Seq<Result<Seq<char>, Seq<char>>>,
    k: int,
    files: Map<Seq<char>, Seq<char>>,
)
    requires
        0 <= k <= wanted.len(),
    ensures
        match repo_files_from(wanted, contents, k, files) {
            Ok(out) => {
                &&& forall|w: int| k <= w < wanted.len() ==> #[trigger] contents[w] is Ok
                &&& forall|name: Seq<char>|
                    {
                        ||| (exists|w: int|
                            {
                                &&& k <= w < wanted.len()
                                &&& (#[trigger] wanted[w]).1 == name
                                &&& out.contains_key(name)
                                &&& contents[w] == Ok::<Seq<char>, Seq<char>>(out[name])
                                &&& forall|v: int|
                                    w < v < wanted.len() ==> (#[trigger] wanted[v]).1 != name
                            })
                        ||| {
                            &&& forall|w: int| k <= w < wanted.len() ==> (#[trigger] wanted[w]).1 != name
                            &&& #[trigger] out.contains_key(name) == files.contains_key(name)
                            &&& out.contains_key(name) ==> out[name] == files[name]
                        }
                    }
            },
            Err(_) => exists|w: int| k <= w < wanted.len() && #[trigger] contents[w] is Err,
        },
    decreases wanted.len() - k,
{
    if k < wanted.len() {
        if let Ok(content) = contents[k] {
            let more = files.insert(wanted[k].1, content);
            lemma_repo_files(wanted, contents, k + 1, more);
            if let Ok(out) = repo_files_from(wanted, contents, k, files) {
                assert forall|name: Seq<char>|
                    {
                        ||| (exists|w: int|
                            {
                                &&& k <= w < wanted.len()
                                &&& (#[trigger] wanted[w]).1 == name
                                &&& out.contains_key(name)
                                &&& contents[w] == Ok::<Seq<char>, Seq<char>>(out[name])
                                &&& forall|v: int|
                                    w < v < wanted.len() ==> (#[trigger] wanted[v]).1 != name
                            })
                        ||| {
                            &&& forall|w: int| k <= w < wanted.len() ==> (#[trigger] wanted[w]).1 != name
                            &&& #[trigger] out.contains_key(name) == files.contains_key(name)
                            &&& out.contains_key(name) ==> out[name] == files[name]
                        }
                    } by {
                    let there = out.contains_key(name);
                    if wanted[k].1 == name && forall|w: int|
                        k + 1 <= w < wanted.len() ==> (#[trigger] wanted[w]).1 != name {
                        assert(out[name] == more[name]);
                        assert(contents[k] == Ok::<Seq<char>, Seq<char>>(out[name]));
                    }
                }
            }
        }
    }
}

/// A layer gives its `.repo` files exactly when every member is accepted and
/// each of those files can be read. It gives one under the name of every such
/// file and under no other, and what it gives is what the last member of that
/// name holds.
pub proof fn law_layer_gives_every_repo_file(
    layer: Seq<u8>,
    members: Seq<Result<MemberView, Seq<char>>>,
)
    ensures
        layer_repos(layer, Ok(members)) is Ok <==> forall|k: int|
            0 <= k < members.len() ==> {
                &&& accepted_path(#[trigger] members[k]) is Some
                &&& repo_member_name(members[k]) is Some ==> member_content(layer, k as nat) is Ok
            },
        layer_repos(layer, Ok(members)) matches Ok(files) ==> forall|name: Seq<char>|
            {
                &&& #[trigger] files.contains_key(name) <==> exists|k: int|
                    0 <= k < members.len() && repo_member_name(#[trigger] members[k]) == Some(name)
                &&& files.contains_key(name) ==> exists|k: int|
                    {
                        &&& 0 <= k < members.len()
                        &&& repo_member_name(#[trigger] members[k]) == Some(name)
                        &&& member_content(layer, k as nat) == Ok::<Seq<char>, Seq<char>>(
                            files[name],
                        )
                        &&& forall|j: int|
                            k < j < members.len() ==> repo_member_name(#[trigger] members[j])
                                != Some(name)
                    }
            },
{
    let search = repo_search_from(members, 0, Seq::empty());
    let wanted = search.0;
    let contents = wanted.map_values(|m: (int, Seq<char>)| member_content(layer, m.0 as nat));
    lemma_repo_search(members, 0, Seq::empty());
    lemma_repo_files(wanted, contents, 0, Map::empty());
    assert forall|w: int| 0 <= w < wanted.len() implies #[trigger] contents[w] == member_content(
        layer,
        wanted[w].0 as nat,
    ) by {}
    if search.1 is None {
        if repo_files_from(wanted, contents, 0, Map::empty()) is Err {
            let w = choose|w: int| 0 <= w < wanted.len() && #[trigger] contents[w] is Err;
            let k = wanted[w].0;
            assert(repo_member_name(members[k]) is Some);
            assert(member_content(layer, k as nat) is Err);
        } else {
            assert forall|k: int| 0 <= k < members.len() && repo_member_name(#[trigger] members[k])
                is Some implies member_content(layer, k as nat) is Ok by {
                let w = choose|w: int| 0 <= w < wanted.len() && (#[trigger] wanted[w]).0 == k;
                assert(contents[w] is Ok);
            }
        }
    }
    if let Ok(files) = layer_repos(layer, Ok(members)) {
        assert forall|name: Seq<char>|
            {
                &&& #[trigger] files.contains_key(name) <==> exists|k: int|
                    0 <= k < members.len() && repo_member_name(#[trigger] members[k]) == Some(name)
                &&& files.contains_key(name) ==> exists|k: int|
                    {
                        &&& 0 <= k < members.len()
                        &&& repo_member_name(#[trigger] members[k]) == Some(name)
                        &&& member_content(layer, k as nat) == Ok::<Seq<char>, Seq<char>>(
                            files[name],
                        )
                        &&& forall|j: int|
                            k < j < members.len() ==> repo_member_name(#[trigger] members[j])
                                != Some(name)
                    }
            } by {
            if exists|w: int| 0 <= w < wanted.len() && (#[trigger] wanted[w]).1 == name {
                let there = files.contains_key(name);
                let w = choose|w: int|
                    {
                        &&& 0 <= w < wanted.len()
                        &&& (#[trigger] wanted[w]).1 == name
                        &&& files.contains_key(name)
                        &&& contents[w] == Ok::<Seq<char>, Seq<char>>(files[name])
                        &&& forall|v: int|
                            w < v < wanted.len() ==> (#[trigger] wanted[v]).1 != name
                    };
                let k = wanted[w].0;
                assert(repo_member_name(members[k]) == Some(name));
                assert forall|j: int| k < j < members.len() implies repo_member_name(
                    #[trigger] members[j],
                ) != Some(name) by {
                    if repo_member_name(members[j]) == Some(name) {
                        let v = choose|v: int|
                            0 <= v < wanted.len() && (#[trigger] wanted[v]).0 == j;
                        if v < w {
                            assert(wanted[v].0 < wanted[w].0);
                        }
                        assert(v != w);
                        assert(wanted[v].1 == name);
                    }
                }
            } else {
                assert(!files.contains_key(name));
                assert forall|k: int| 0 <= k < members.len() implies repo_member_name(
                    #[trigger] members[k],
                ) != Some(name) by {
                    if repo_member_name(members[k]) == Some(name) {
                        let w = choose|w: int|
                            0 <= w < wanted.len() && (#[trigger] wanted[w]).0 == k;
                        assert(wanted[w].1 == name);
                    }
                }
            }
        }
    }
}

/// The directories of a fragment that a layer may hold, as paths.
proof fn lemma_section(section: Seq<char>)
    requires
        path::plain_name(section),
    ensures
        path::ordinary_path("fragment"@),
        path::ordinary_path("fragment"@ + seq!['/'] + section),
{
    reveal_strlit("fragment");
    let top = "fragment"@;
    assert(!top.contains('/')) by {
        if top.contains('/') {
            let i = choose|i: int| 0 <= i < top.len() && top[i] == '/';
            assert(false);
        }
    }
    path::law_ordinary_paths_are_names_between_separators(top, top);
    path::law_ordinary_paths_are_names_between_separators(top, section);
    assert(top.len() == 8);
}

proof fn lemma_sections()
    ensures
        path::plain_name("tree"@),
        path::plain_name("hooks"@),
        path::plain_name("mount"@),
        "fragment/tree"@ == "fragment"@ + seq!['/'] + "tree"@,
        "fragment/hooks"@ == "fragment"@ + seq!['/'] + "hooks"@,
        "fragment/mount"@ == "fragment"@ + seq!['/'] + "mount"@,
        "tree"@ != "hooks"@,
        "tree"@ != "mount"@,
        "hooks"@ != "mount"@,
{
    reveal_strlit("fragment");
    reveal_strlit("tree");
    reveal_strlit("hooks");
    reveal_strlit("mount");
    reveal_strlit("fragment/tree");
    reveal_strlit("fragment/hooks");
    reveal_strlit("fragment/mount");
    assert("fragment/tree"@ =~= "fragment"@ + seq!['/'] + "tree"@);
    assert("fragment/hooks"@ =~= "fragment"@ + seq!['/'] + "hooks"@);
    assert("fragment/mount"@ =~= "fragment"@ + seq!['/'] + "mount"@);
    assert("tree"@.len() == 4);
    assert("hooks"@.len() == 5);
    assert("hooks"@[0] == 'h' && "mount"@[0] == 'm');
}

/// The directories of a fragment are paths of ordinary names.
pub proof fn lemma_fragment_dirs()
    ensures
        path::ordinary_path("fragment"@),
        path::ordinary_path("fragment/tree"@),
        path::ordinary_path("fragment/hooks"@),
        path::ordinary_path("fragment/mount"@),
{
    lemma_sections();
    lemma_section("tree"@);
    lemma_section("hooks"@);
    lemma_section("mount"@);
}

/// Two directories of a fragment share nothing.
proof fn lemma_other_section(section: Seq<char>, other: Seq<char>, rel: Seq<char>)
    requires
        path::plain_name(section),
        path::plain_name(other),
        section != other,
        path::ordinary_path(rel),
    ensures
        path::stripped("fragment"@ + seq!['/'] + section + seq!['/'] + rel, "fragment"@ + seq!['/']
            + other) is None,
{
    lemma_section(section);
    lemma_section(other);
    let base = "fragment"@ + seq!['/'] + section;
    let away = "fragment"@ + seq!['/'] + other;
    let p = base + seq!['/'] + rel;
    path::lemma_ordinary_concat(base, rel);
    path::lemma_ordinary_path(p);
    path::lemma_ordinary_path(away);
    path::law_path_names_its_pieces("fragment"@, section);
    path::law_path_names_its_pieces("fragment"@, other);
    reveal_strlit("fragment");
    assert(!"fragment"@.contains('/'));
    path::law_path_names_its_pieces("fragment"@, "fragment"@);
    assert(path::names(away)[1] == other);
    assert(path::names(p)[1] == section);
    if path::names(away).is_prefix_of(path::names(p)) {
        assert(path::names(away)[1] == path::names(p).subrange(
            0,
            path::names(away).len() as int,
        )[1]);
    }
}

/// What lies in `tree/` and `hooks/` of a fragment is written to the
/// directory of that name, at the same path below it, and what lies in
/// `mount/` only where mount material is asked for. Nothing else is written:
/// neither what lies elsewhere, nor a member that is neither a regular file
/// nor a directory.
pub proof fn law_payload_goes_to_its_place(
    path: Seq<u8>,
    type_byte: u8,
    dest_dir: Seq<char>,
    mounts: MountMaterialization,
    p: Seq<char>,
    rel: Seq<char>,
)
    requires
        checked_entry(path, kind_of(type_byte)) == Ok::<Seq<char>, Seq<char>>(p),
        path::ordinary_path(rel),
    ensures
        ({
            let place = payload_entry(path, kind_of(type_byte), dest_dir, mounts);
            let written = type_byte == 0x30 || type_byte == 0x35;
            let in_tree = path::path_join(path::path_join(dest_dir, "tree"@), rel);
            let in_hooks = path::path_join(path::path_join(dest_dir, "hooks"@), rel);
            let in_mount = path::path_join(path::path_join(dest_dir, "mount"@), rel);
            &&& place is Ok
            &&& !written ==> place->Ok_0 is None
            &&& written && p == "fragment/tree"@ + seq!['/'] + rel ==> place->Ok_0 == Some(in_tree)
            &&& written && p == "fragment/hooks"@ + seq!['/'] + rel ==> place->Ok_0 == Some(
                in_hooks,
            )
            &&& written && p == "fragment/mount"@ + seq!['/'] + rel ==> place->Ok_0 == if mounts
                == MountMaterialization::Write {
                Some(in_mount)
            } else {
                None
            }
            &&& place->Ok_0 is Some ==> {
                ||| p == "fragment/tree"@ || ("fragment/tree"@ + seq!['/']).is_prefix_of(p)
                ||| p == "fragment/hooks"@ || ("fragment/hooks"@ + seq!['/']).is_prefix_of(p)
                ||| p == "fragment/mount"@ || ("fragment/mount"@ + seq!['/']).is_prefix_of(p)
            }
        }),
{
    lemma_sections();
    lemma_section("tree"@);
    lemma_section("hooks"@);
    lemma_section("mount"@);
    path::law_stripping_leaves_what_stands_behind("fragment/tree"@, rel);
    path::law_stripping_leaves_what_stands_behind("fragment/hooks"@, rel);
    path::law_stripping_leaves_what_stands_behind("fragment/mount"@, rel);
    lemma_other_section("hooks"@, "tree"@, rel);
    lemma_other_section("mount"@, "tree"@, rel);
    lemma_other_section("mount"@, "hooks"@, rel);
    law_accepted_members(path, type_byte);
    if path::ordinary_path(p) {
        path::law_stripping_leaves_what_stands_behind("fragment/tree"@, p);
        path::law_stripping_leaves_what_stands_behind("fragment/hooks"@, p);
        path::law_stripping_leaves_what_stands_behind("fragment/mount"@, p);
    } else {
        assert(path::names(p) =~= Seq::empty());
        path::lemma_ordinary_path("fragment/tree"@);
        path::lemma_ordinary_path("fragment/hooks"@);
        path::lemma_ordinary_path("fragment/mount"@);
    }
}

proof fn lemma_payload(
    members: Seq<Result<MemberView, Seq<char>>>,
    dest_dir: Seq<char>,
    mounts: MountMaterialization,
    i: int,
    writes: Seq<(int, Seq<char>, Option<Seq<char>>)>,
)
    requires
        0 <= i <= members.len(),
        forall|w: int| 0 <= w < writes.len() ==> (#[trigger] writes[w]).0 < i,
        forall|v: int, w: int|
            0 <= v < w < writes.len() ==> (#[trigger] writes[v]).0 < (#[trigger] writes[w]).0,
    ensures
        ({
            let out = payload_from(members, dest_dir, mounts, i, writes);
            &&& out.1 is None <==> forall|k: int|
                i <= k < members.len() ==> accepted_path(#[trigger] members[k]) is Some
            &&& writes.len() <= out.0.len()
            &&& forall|w: int| 0 <= w < writes.len() ==> #[trigger] out.0[w] == writes[w]
            &&& forall|v: int, w: int|
                0 <= v < w < out.0.len() ==> (#[trigger] out.0[v]).0 < (#[trigger] out.0[w]).0
            &&& forall|w: int|
                writes.len() <= w < out.0.len() ==> {
                    let write = #[trigger] out.0[w];
                    &&& i <= write.0 < members.len()
                    &&& members[write.0] matches Ok(m)
                    &&& payload_entry(m.path, kind_of(m.kind), dest_dir, mounts) == Ok::<
                        Option<Seq<char>>,
                        Seq<char>,
                    >(Some(write.1))
                    &&& write.2 == path::parent_of(write.1)
                }
            &&& forall|k: int|
                {
                    &&& i <= k < members.len()
                    &&& (#[trigger] members[k] matches Ok(m) && payload_entry(
                        m.path,
                        kind_of(m.kind),
                        dest_dir,
                        mounts,
                    ) matches Ok(Some(_)))
                    &&& forall|j: int|
                        i <= j < k ==> accepted_path(#[trigger] members[j]) is Some
                } ==> exists|w: int|
                    writes.len() <= w < out.0.len() && (#[trigger] out.0[w]).0 == k
        }),
    decreases members.len() - i,
{
    if i < members.len() && accepted_path(members[i]) is Some {
        let m = members[i]->Ok_0;
        match payload_entry(m.path, kind_of(m.kind), dest_dir, mounts) {
            Ok(Some(dest)) => {
                let more = writes.push((i, dest, path::parent_of(dest)));
                lemma_payload(members, dest_dir, mounts, i + 1, more);
                let out = payload_from(members, dest_dir, mounts, i + 1, more);
                assert(out.0[writes.len() as int] == more[writes.len() as int]);
                assert forall|w: int| 0 <= w < writes.len() implies #[trigger] out.0[w]
                    == writes[w] by {
                    assert(more[w] == writes[w]);
                }
            },
            Ok(None) => {
                lemma_payload(members, dest_dir, mounts, i + 1, writes);
            },
            Err(_) => {},
        }
    }
}

/// What of a layer is written is planned member by member, in the order of
/// the archive: every member that has a place and stands before the first
/// refused one is written, once and to that place, and nothing else is. The
/// plan has no failure exactly when every member is accepted.
pub proof fn law_payload_plan_writes_every_member(
    members: Seq<Result<MemberView, Seq<char>>>,
    dest_dir: Seq<char>,
    mounts: MountMaterialization,
)
    ensures
        layer_payload(Ok(members), dest_dir, mounts) matches Ok(plan) && {
            &&& plan.1 is None <==> forall|k: int|
                0 <= k < members.len() ==> accepted_path(#[trigger] members[k]) is Some
            &&& forall|v: int, w: int|
                0 <= v < w < plan.0.len() ==> (#[trigger] plan.0[v]).0 < (#[trigger] plan.0[w]).0
            &&& forall|w: int|
                0 <= w < plan.0.len() ==> {
                    let write = #[trigger] plan.0[w];
                    &&& 0 <= write.0 < members.len()
                    &&& members[write.0] matches Ok(m)
                    &&& payload_entry(m.path, kind_of(m.kind), dest_dir, mounts) == Ok::<
                        Option<Seq<char>>,
                        Seq<char>,
                    >(Some(write.1))
                    &&& write.2 == path::parent_of(write.1)
                }
            &&& forall|k: int|
                {
                    &&& 0 <= k < members.len()
                    &&& (#[trigger] members[k] matches Ok(m) && payload_entry(
                        m.path,
                        kind_of(m.kind),
                        dest_dir,
                        mounts,
                    ) matches Ok(Some(_)))
                    &&& forall|j: int|
                        0 <= j < k ==> accepted_path(#[trigger] members[j]) is Some
                } ==> exists|w: int| 0 <= w < plan.0.len() && (#[trigger] plan.0[w]).0 == k
        },
{
    lemma_payload(members, dest_dir, mounts, 0, Seq::empty());
}

/// A layer whose archive cannot be read gives nothing, and says so.
pub proof fn law_unreadable_layer_gives_nothing(
    layer: Seq<u8>,
    e: Seq<char>,
    dest_dir: Seq<char>,
    mounts: MountMaterialization,
)
    ensures
        layer_toml(layer, Err(e)) == Err::<Seq<char>, Seq<char>>("reading tar entries: "@ + e),
        layer_listing(Err(e)) == Err::<ListingView, Seq<char>>(e),
        layer_repos(layer, Err(e)) == Err::<Map<Seq<char>, Seq<char>>, Seq<char>>(e),
        layer_payload(Err(e), dest_dir, mounts) == Err::<
            (Seq<(int, Seq<char>, Option<Seq<char>>)>, Option<Seq<char>>),
            Seq<char>,
        >("reading tar entries: "@ + e),
{
}

} // verus!
