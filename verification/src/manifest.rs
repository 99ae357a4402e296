//! The manifest: the base image and the fragments to compose onto it.

use vstd::prelude::*;

use crate::text;
use crate::text::starts_with;

verus! {

/// What kind of image the base is.
#[derive(Debug, Clone, Copy, PartialEq, Eq, Structural)]
pub enum BaseType {
    Bootc,
    Container,
}

/// Where a fragment comes from.
#[derive(Debug, Clone)]
pub enum FragmentSource {
    Registry { image_ref: String },
}

/// A manifest as its file states it, before the rules on it are checked.
#[derive(Debug, Clone)]
pub struct ManifestYaml {
    pub api_version: String,
    pub kind: String,
    pub base: Option<String>,
    pub fragments: Vec<ManifestFragment>,
}

/// The base image and the fragments to compose onto it.
#[derive(Debug, Clone)]
pub struct Manifest {
    pub base: String,
    pub fragments: Vec<ManifestFragment>,
    /// Path the manifest was read from, as the user wrote it. Reported in the
    /// generated Containerfile header and by `list`, so it must be the real
    /// `--manifest` argument rather than a default filename.
    pub source_path: String,
}

/// One fragment entry of a manifest.
#[derive(Debug, Clone)]
pub struct ManifestFragment {
    pub image: String,
    pub packages: Vec<String>,
    pub mirror: Option<String>,
}

/// Why a manifest is refused.
#[derive(Debug, Clone, Copy, PartialEq, Eq, Structural)]
pub enum ManifestError {
    /// There is no `base`.
    MissingBase,
    /// There is no fragment.
    NoFragments,
    /// A fragment entry names a local directory.
    DirectorySource,
}

impl ManifestError {
    pub open spec fn text(self) -> Seq<char> {
        match self {
            ManifestError::MissingBase => "manifest missing required 'base' field"@,
            ManifestError::NoFragments => "manifest must contain at least one fragment"@,
            ManifestError::DirectorySource =>
                "local directory sources (dir:) are not supported \u{2014} push fragments to a registry first"@,
        }
    }

    pub fn message(&self) -> (out: String)
        ensures
            out@ == self.text(),
    {
        match self {
            ManifestError::MissingBase => "manifest missing required 'base' field".to_owned(),
            ManifestError::NoFragments => "manifest must contain at least one fragment".to_owned(),
            ManifestError::DirectorySource =>
                "local directory sources (dir:) are not supported \u{2014} push fragments to a registry first".to_owned(),
        }
    }
}

impl FragmentSource {
    /// The image that the source names.
    pub open spec fn image(self) -> Seq<char> {
        match self {
            FragmentSource::Registry { image_ref } => image_ref@,
        }
    }
}

/// The image reference names a local directory.
pub open spec fn directory_source(image: Seq<char>) -> bool {
    "dir:"@.is_prefix_of(image)
}

impl ManifestFragment {
    /// Where this entry's fragment comes from: the registry, under the image
    /// reference the manifest declares. A local directory is refused.
    pub fn resolve_source(&self) -> (r: Result<FragmentSource, ManifestError>)
        ensures
            match r {
                Ok(source) => !directory_source(self.image@) && source.image() == self.image@,
                Err(e) => directory_source(self.image@) && e == ManifestError::DirectorySource,
            },
    {
        if starts_with(self.image.as_str(), "dir:") {
            return Err(ManifestError::DirectorySource);
        }
        Ok(FragmentSource::Registry { image_ref: self.image.clone() })
    }
}

/// The manifest that a manifest file states: it must name a base and at least
/// one fragment. `source_path` is where it was read from.
pub fn manifest_from_yaml(raw: ManifestYaml, source_path: &str) -> (r: Result<
    Manifest,
    ManifestError,
>)
    ensures
        match r {
            Ok(manifest) => {
                &&& raw.base is Some
                &&& raw.fragments@.len() > 0
                &&& manifest.base == raw.base->0
                &&& manifest.fragments@ == raw.fragments@
                &&& manifest.source_path@ == source_path@
            },
            Err(ManifestError::MissingBase) => raw.base is None,
            Err(e) => {
                &&& e == ManifestError::NoFragments
                &&& raw.base is Some
                &&& raw.fragments@.len() == 0
            },
        },
{
    match raw.base {
        None => Err(ManifestError::MissingBase),
        Some(base) => {
            if raw.fragments.len() == 0 {
                return Err(ManifestError::NoFragments);
            }
            Ok(Manifest { base, fragments: raw.fragments, source_path: source_path.to_owned() })
        },
    }
}

/// A reference names a local directory exactly when it begins with `dir:`,
/// whatever stands behind that.
pub proof fn law_directory_references(image: Seq<char>, rest: Seq<char>)
    ensures
        directory_source(seq!['d', 'i', 'r', ':'] + rest),
        directory_source(image) ==> image == seq!['d', 'i', 'r', ':'] + image.skip(4),
{
    reveal_strlit("dir:");
    assert("dir:"@ =~= seq!['d', 'i', 'r', ':']);
    let named = "dir:"@ + rest;
    assert(named.subrange(0, 4) =~= "dir:"@);
    if directory_source(image) {
        assert(image.subrange(0, 4) == "dir:"@);
        assert(image =~= image.subrange(0, 4) + image.skip(4));
    }
}

/// What is said of a refused manifest begins by telling the errors apart:
/// what is missing from it, that it lacks fragments, or that an entry is a
/// local directory.
pub proof fn law_manifest_errors_say_what_is_wrong()
    ensures
        "manifest missing required 'base'"@.is_prefix_of(ManifestError::MissingBase.text()),
        "manifest must contain at least one fragment"@ == ManifestError::NoFragments.text(),
        "local directory sources (dir:) are not supported"@.is_prefix_of(
            ManifestError::DirectorySource.text(),
        ),
{
    reveal_strlit("manifest missing required 'base'");
    reveal_strlit("manifest missing required 'base' field");
    reveal_strlit("local directory sources (dir:) are not supported");
    reveal_strlit(
        "local directory sources (dir:) are not supported \u{2014} push fragments to a registry first",
    );
    let base = ManifestError::MissingBase.text();
    assert(base.subrange(0, 32) =~= "manifest missing required 'base'"@);
    let dir = ManifestError::DirectorySource.text();
    assert(dir.subrange(0, 48) =~= "local directory sources (dir:) are not supported"@);
}

} // verus!
