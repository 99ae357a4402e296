//! Fragments: the name grammar, and the metadata a fragment declares about
//! itself.

use vstd::prelude::*;

use crate::path;
use crate::text;
use crate::text::{chars_of, starts_with};

verus! {

/// Longest accepted fragment name. Fragment names become directory names in
/// a build context and stage names in a Containerfile, neither of which has
/// a reason to be long; the cap exists so a pathological name cannot push a
/// generated path past a filesystem or builder limit.
pub const MAX_FRAGMENT_NAME_LEN: usize = 64;

/// A lowercase ASCII letter or a digit.
pub open spec fn name_edge(c: char) -> bool {
    'a' <= c <= 'z' || '0' <= c <= '9'
}

/// A character that a fragment name may hold.
pub open spec fn name_char(c: char) -> bool {
    name_edge(c) || c == '.' || c == '-' || c == '_'
}

/// The grammar of fragment names: one to [`MAX_FRAGMENT_NAME_LEN`] characters
/// of lowercase letters, digits, `.`, `-` and `_`, with a letter or digit at
/// either end.
pub open spec fn valid_fragment_name(name: Seq<char>) -> bool {
    &&& 1 <= name.len() <= MAX_FRAGMENT_NAME_LEN
    &&& name_edge(name.first())
    &&& name_edge(name.last())
    &&& forall|i: int| 0 <= i < name.len() ==> name_char(#[trigger] name[i])
}

/// A fragment name that is safe to use as a single path component.
///
/// The inner string is private and every value satisfies
/// [`valid_fragment_name`], so holding one is proof that the grammar was
/// checked: paths are built out of it without rechecking.
#[derive(Debug, PartialEq, Eq, Hash, PartialOrd, Ord)]
pub struct FragmentName(String);

impl View for FragmentName {
    type V = Seq<char>;

    closed spec fn view(&self) -> Seq<char> {
        self.0@
    }
}

impl Clone for FragmentName {
    fn clone(&self) -> (copy: Self)
        ensures
            copy == *self,
    {
        proof {
            use_type_invariant(self);
        }
        FragmentName(self.0.clone())
    }
}

/// A name that the grammar refuses.
#[derive(Debug, Clone)]
pub struct FragmentNameError {
    pub name: String,
}

/// What is said of a refused name, given the name with its unprintable
/// characters escaped.
pub open spec fn invalid_name_text(escaped: Seq<char>) -> Seq<char> {
    "invalid fragment name '"@ + escaped + "': a name must be 1 to 64 characters of lowercase letters, digits, '.', '-', or '_', and must start and end with a letter or digit. The name becomes a directory name in the build context and a Containerfile stage name, so it is rejected rather than rewritten."@
}

/// What is said of a refused name, given the name with its unprintable
/// characters escaped.
pub fn invalid_name_message(escaped: &str) -> (out: String)
    ensures
        out@ == invalid_name_text(escaped@),
{
    let mut out = "invalid fragment name '".to_owned();
    out.append(escaped);
    out.append("': a name must be 1 to 64 characters of lowercase letters, digits, '.', '-', or '_', and must start and end with a letter or digit. The name becomes a directory name in the build context and a Containerfile stage name, so it is rejected rather than rewritten.");
    out
}

impl FragmentNameError {
    pub fn message(&self) -> (out: String)
        ensures
            out@ == invalid_name_text(text::escaped(self.name@)),
    {
        let escaped = text::escape_debug(self.name.as_str());
        invalid_name_message(escaped.as_str())
    }
}

/// Whether `c` may stand at either end of a name.
fn is_name_edge(c: char) -> (r: bool)
    ensures
        r == name_edge(c),
{
    ('a' <= c && c <= 'z') || ('0' <= c && c <= '9')
}

impl FragmentName {
    #[verifier::type_invariant]
    spec fn well_formed(self) -> bool {
        valid_fragment_name(self.0@)
    }

    /// Validate `name` against the fragment-name grammar.
    ///
    /// Rejects rather than sanitizes: silently rewriting a name into
    /// something safe would produce a build that does not match what the
    /// fragment author wrote.
    pub fn new(name: &str) -> (r: Result<Self, FragmentNameError>)
        ensures
            r is Ok <==> valid_fragment_name(name@),
            r matches Ok(n) ==> n@ == name@,
            r matches Err(e) ==> e.name@ == name@,
    {
        let chars = chars_of(name);
        let n: usize = chars.len();
        let mut good = 1 <= n && n <= MAX_FRAGMENT_NAME_LEN && is_name_edge(chars[0])
            && is_name_edge(chars[n - 1]);
        let mut i: usize = 0;
        while good && i < n
            invariant
                chars@ == name@,
                n == chars.len(),
                i <= n,
                good ==> (forall|j: int| 0 <= j < i ==> name_char(#[trigger] name@[j])),
                good ==> 1 <= name@.len() <= MAX_FRAGMENT_NAME_LEN && name_edge(name@.first())
                    && name_edge(name@.last()),
                !good ==> !valid_fragment_name(name@),
            decreases n - i,
        {
            let c = chars[i];
            if !(is_name_edge(c) || c == '.' || c == '-' || c == '_') {
                assert(!name_char(name@[i as int]));
                good = false;
            }
            i = i + 1;
        }
        if good {
            Ok(FragmentName(name.to_owned()))
        } else {
            Err(FragmentNameError { name: name.to_owned() })
        }
    }

    pub fn as_str(&self) -> (r: &str)
        ensures
            r@ == self@,
            valid_fragment_name(self@),
    {
        proof {
            use_type_invariant(self);
        }
        self.0.as_str()
    }
}

/// The repositories a fragment brings.
#[derive(Debug, Clone, Default)]
pub struct FragmentProvides {
    pub repos: Vec<String>,
}

/// The packages a fragment needs.
#[derive(Debug, Clone, Default)]
pub struct FragmentPackages {
    pub required: Vec<String>,
}

/// The fragments a fragment cannot be composed with.
#[derive(Debug, Clone, Default)]
pub struct FragmentConflicts {
    pub fragments: Vec<String>,
}

/// The `[fragment]` table of a `fragment.toml`, as written: its name has not
/// been held to the grammar.
#[derive(Debug, Clone)]
pub struct FragmentInner {
    pub name: String,
    pub version: String,
    pub description: String,
    pub vendor: Option<String>,
    pub provides: FragmentProvides,
    pub packages: FragmentPackages,
    pub conflicts: FragmentConflicts,
}

/// The metadata of a fragment.
#[derive(Debug, Clone)]
pub struct Fragment {
    pub name: FragmentName,
    pub version: String,
    pub description: String,
    pub vendor: Option<String>,
    pub provides: FragmentProvides,
    pub packages: FragmentPackages,
    pub conflicts: FragmentConflicts,
}

/// What a [`Fragment`] says, as text.
#[verifier::ext_equal]
pub struct FragmentView {
    pub name: Seq<char>,
    pub version: Seq<char>,
    pub description: Seq<char>,
    pub vendor: Option<Seq<char>>,
    pub repos: Seq<Seq<char>>,
    pub required: Seq<Seq<char>>,
    pub conflicts: Seq<Seq<char>>,
}

impl View for Fragment {
    type V = FragmentView;

    open spec fn view(&self) -> FragmentView {
        FragmentView {
            name: self.name@,
            version: self.version@,
            description: self.description@,
            vendor: text::opt_text(self.vendor),
            repos: text::texts(self.provides.repos@),
            required: text::texts(self.packages.required@),
            conflicts: text::texts(self.conflicts.fragments@),
        }
    }
}

impl View for FragmentInner {
    type V = FragmentView;

    open spec fn view(&self) -> FragmentView {
        FragmentView {
            name: self.name@,
            version: self.version@,
            description: self.description@,
            vendor: text::opt_text(self.vendor),
            repos: text::texts(self.provides.repos@),
            required: text::texts(self.packages.required@),
            conflicts: text::texts(self.conflicts.fragments@),
        }
    }
}

/// The fragment that a `fragment.toml` declares.
///
/// The single validation point for names arriving from a fragment's own
/// metadata. Everything downstream receives a [`FragmentName`] and cannot
/// reconstruct an unchecked one.
pub fn fragment_from_inner(inner: FragmentInner) -> (r: Result<Fragment, FragmentNameError>)
    ensures
        r is Ok <==> valid_fragment_name(inner.name@),
        r matches Ok(fragment) ==> fragment@ == inner@,
        r matches Err(e) ==> e.name@ == inner.name@,
{
    match FragmentName::new(inner.name.as_str()) {
        Ok(name) => Ok(
            Fragment {
                name,
                version: inner.version,
                description: inner.description,
                vendor: inner.vendor,
                provides: inner.provides,
                packages: inner.packages,
                conflicts: inner.conflicts,
            },
        ),
        Err(e) => Err(e),
    }
}

/// Where a fragment's tree keeps repository definitions.
pub const REPO_FILE_PREFIX: &'static str = "tree/etc/yum.repos.d/";

/// Where a fragment's tree keeps the keys that sign a repository.
pub const REPO_KEY_PREFIX: &'static str = "tree/etc/pki/rpm-gpg/";

/// A path of a fragment's tree that sets up a repository.
pub open spec fn repo_path(path: Seq<char>) -> bool {
    REPO_FILE_PREFIX@.is_prefix_of(path) || REPO_KEY_PREFIX@.is_prefix_of(path)
}

/// Whether `path` sets up a repository.
pub fn is_repo_path(path: &str) -> (r: bool)
    ensures
        r == repo_path(path@),
{
    starts_with(path, REPO_FILE_PREFIX) || starts_with(path, REPO_KEY_PREFIX)
}

/// Joining a valid fragment name onto any directory gives a direct child of
/// that directory: the name is one ordinary path component, never empty, `.`
/// or `..`, and it holds no separator.
pub proof fn law_fragment_name_is_one_component(dir: Seq<char>, name: Seq<char>)
    requires
        valid_fragment_name(name),
    ensures
        path::plain_name(name),
        path::components(path::path_join(dir, name)) == path::components(dir).push(name),
{
    assert(name.first() == name[0]);
    assert(!name.contains('/')) by {
        if name.contains('/') {
            let i = choose|i: int| 0 <= i < name.len() && name[i] == '/';
            assert(name_char(name[i]));
        }
    }
    path::lemma_join_child(dir, name);
}

/// A fragment name is one to 64 characters, each a lowercase letter, a digit,
/// a dot, a hyphen or an underscore, and the first and the last of them a
/// letter or a digit.
pub proof fn law_fragment_names(name: Seq<char>)
    ensures
        valid_fragment_name(name) <==> {
            &&& name.len() > 0
            &&& name.len() < 65
            &&& forall|i: int|
                0 <= i < name.len() ==> {
                    ||| 0x61 <= (#[trigger] name[i]) as int <= 0x7a
                    ||| 0x30 <= name[i] as int <= 0x39
                    ||| 0 < i < name.len() - 1 && (name[i] == '.' || name[i] == '-' || name[i]
                        == '_')
                }
        },
{
    if valid_fragment_name(name) {
        assert forall|i: int| 0 <= i < name.len() implies {
            ||| 0x61 <= (#[trigger] name[i]) as int <= 0x7a
            ||| 0x30 <= name[i] as int <= 0x39
            ||| 0 < i < name.len() - 1 && (name[i] == '.' || name[i] == '-' || name[i] == '_')
        } by {
            assert(name_char(name[i]));
        }
    }
    if name.len() > 0 && name.len() < 65 && forall|i: int|
        0 <= i < name.len() ==> {
            ||| 0x61 <= (#[trigger] name[i]) as int <= 0x7a
            ||| 0x30 <= name[i] as int <= 0x39
            ||| 0 < i < name.len() - 1 && (name[i] == '.' || name[i] == '-' || name[i] == '_')
        } {
        assert(name_edge(name[0]));
        assert(name_edge(name[name.len() - 1]));
        assert forall|i: int| 0 <= i < name.len() implies name_char(#[trigger] name[i]) by {}
    }
}

/// What sets up a repository lies in one of two directories of the tree.
pub proof fn law_repositories_are_set_up_in_two_directories(rel: Seq<char>, path: Seq<char>)
    ensures
        repo_path("tree/etc/yum.repos.d/"@ + rel),
        repo_path("tree/etc/pki/rpm-gpg/"@ + rel),
        repo_path(path) ==> "tree/etc/yum.repos.d/"@.is_prefix_of(path)
            || "tree/etc/pki/rpm-gpg/"@.is_prefix_of(path),
{
    let a = "tree/etc/yum.repos.d/"@ + rel;
    let b = "tree/etc/pki/rpm-gpg/"@ + rel;
    assert("tree/etc/yum.repos.d/"@ =~= a.subrange(0, "tree/etc/yum.repos.d/"@.len() as int));
    assert("tree/etc/pki/rpm-gpg/"@ =~= b.subrange(0, "tree/etc/pki/rpm-gpg/"@.len() as int));
}

/// What is said of a fragment is what it holds, field by field, and the same
/// of one whose name has not been held to the grammar.
pub proof fn law_view_of_a_fragment(fragment: Fragment, inner: FragmentInner)
    ensures
        fragment@.name == fragment.name@,
        fragment@.version == fragment.version@,
        fragment@.description == fragment.description@,
        fragment@.vendor is Some <==> fragment.vendor is Some,
        fragment.vendor matches Some(vendor) ==> fragment@.vendor == Some(vendor@),
        fragment@.repos.len() == fragment.provides.repos@.len(),
        forall|k: int|
            0 <= k < fragment.provides.repos@.len() ==> #[trigger] fragment@.repos[k]
                == fragment.provides.repos@[k]@,
        fragment@.required.len() == fragment.packages.required@.len(),
        forall|k: int|
            0 <= k < fragment.packages.required@.len() ==> #[trigger] fragment@.required[k]
                == fragment.packages.required@[k]@,
        fragment@.conflicts.len() == fragment.conflicts.fragments@.len(),
        forall|k: int|
            0 <= k < fragment.conflicts.fragments@.len() ==> #[trigger] fragment@.conflicts[k]
                == fragment.conflicts.fragments@[k]@,
        inner@.name == inner.name@,
        inner@.version == inner.version@,
        inner@.description == inner.description@,
        inner@.vendor is Some <==> inner.vendor is Some,
        inner.vendor matches Some(vendor) ==> inner@.vendor == Some(vendor@),
        inner@.repos.len() == inner.provides.repos@.len(),
        forall|k: int|
            0 <= k < inner.provides.repos@.len() ==> #[trigger] inner@.repos[k]
                == inner.provides.repos@[k]@,
        inner@.required.len() == inner.packages.required@.len(),
        forall|k: int|
            0 <= k < inner.packages.required@.len() ==> #[trigger] inner@.required[k]
                == inner.packages.required@[k]@,
        inner@.conflicts.len() == inner.conflicts.fragments@.len(),
        forall|k: int|
            0 <= k < inner.conflicts.fragments@.len() ==> #[trigger] inner@.conflicts[k]
                == inner.conflicts.fragments@[k]@,
{
}

/// What is said of a refused name quotes the whole of it, however long, and
/// then gives the rule that it breaks.
pub proof fn law_refused_name_is_quoted(escaped: Seq<char>)
    ensures
        ("invalid fragment name '"@ + escaped + "': a name must be 1 to 64 characters"@).is_prefix_of(
            invalid_name_text(escaped),
        ),
{
    reveal_strlit("invalid fragment name '");
    reveal_strlit("': a name must be 1 to 64 characters");
    reveal_strlit(
        "': a name must be 1 to 64 characters of lowercase letters, digits, '.', '-', or '_', and must start and end with a letter or digit. The name becomes a directory name in the build context and a Containerfile stage name, so it is rejected rather than rewritten.",
    );
    let front = "invalid fragment name '"@ + escaped + "': a name must be 1 to 64 characters"@;
    assert(invalid_name_text(escaped).subrange(0, front.len() as int) =~= front);
}

} // verus!
