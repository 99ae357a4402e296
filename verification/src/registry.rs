//! What a registry is asked for, through `skopeo`, and what its answers mean:
//! digests, manifest annotations, and the layout that an image is copied into.

use vstd::prelude::*;

use crate::fragment;
use crate::fragment::{
    Fragment, FragmentConflicts, FragmentName, FragmentPackages, FragmentProvides, FragmentView,
};
use crate::json;
use crate::json::{get_member, get_string, json_object, json_string_list, JsonMember};
use crate::mount;
use crate::mount::{MountPoint, MOUNTS_ANNOTATION_KEY};
use crate::path;
use crate::text;
use crate::text::{chars_of, find_char, lossy_text, trim, utf8_text};

verus! {

/// Annotation key of a fragment's name.
pub const NAME_ANNOTATION_KEY: &'static str = "com.github.marrusl.osfragment.name";

/// Annotation key of a fragment's version.
pub const VERSION_ANNOTATION_KEY: &'static str = "com.github.marrusl.osfragment.version";

/// Annotation key of a fragment's description.
pub const DESCRIPTION_ANNOTATION_KEY: &'static str = "com.github.marrusl.osfragment.description";

/// Annotation key of the repositories a fragment provides, a JSON array.
pub const REPOS_ANNOTATION_KEY: &'static str = "com.github.marrusl.osfragment.provides.repos";

/// Annotation key of the packages a fragment requires, a JSON array.
pub const REQUIRED_ANNOTATION_KEY: &'static str =
    "com.github.marrusl.osfragment.packages.required";

/// Annotation key of a fragment's vendor.
pub const VENDOR_ANNOTATION_KEY: &'static str = "com.github.marrusl.osfragment.vendor";

/// What a finished command left.
#[derive(Debug, Clone)]
pub struct CommandOutput {
    pub success: bool,
    pub stdout: Vec<u8>,
    pub stderr: Vec<u8>,
}

/// The last position before `n` that holds `c`, or -1.
pub open spec fn last_before(s: Seq<char>, c: char, n: int) -> int
    decreases n,
{
    if n <= 0 {
        -1
    } else if s[n - 1] == c {
        n - 1
    } else {
        last_before(s, c, n - 1)
    }
}

/// An image reference without the digest it may be pinned to.
pub open spec fn without_digest(image_ref: Seq<char>) -> Seq<char> {
    image_ref.take(text::find_from(image_ref, '@', 0))
}

/// The repository that an image reference names, and its tag. A colon before
/// the last separator belongs to a port and starts no tag.
pub open spec fn image_parts(image_ref: Seq<char>) -> (Seq<char>, Option<Seq<char>>) {
    let s = without_digest(image_ref);
    let colon = last_before(s, ':', s.len() as int);
    if colon > last_before(s, '/', s.len() as int) {
        (s.take(colon), Some(s.skip(colon + 1)))
    } else {
        (s, None)
    }
}

/// One more than the last position that holds `c`, or 0.
fn behind_last(chars: &[char], c: char, count: usize) -> (r: usize)
    requires
        count <= chars@.len(),
    ensures
        r == last_before(chars@, c, count as int) + 1,
        r <= count,
        r > 0 ==> chars@[r - 1] == c,
{
    let mut n: usize = count;
    while n > 0 && chars[n - 1] != c
        invariant
            n <= count,
            count <= chars@.len(),
            last_before(chars@, c, count as int) == last_before(chars@, c, n as int),
        decreases n,
    {
        n = n - 1;
    }
    n
}

/// Splits an image reference into its repository and its tag, leaving out a
/// digest.
pub fn split_image_ref(image_ref: &str) -> (r: (String, Option<String>))
    ensures
        (r.0@, text::opt_text(r.1)) == image_parts(image_ref@),
{
    let chars = chars_of(image_ref);
    let end = find_char(&chars, '@', 0);
    proof {
        text::lemma_find_from(image_ref@, '@', 0);
    }
    let s = image_ref.substring_char(0, end);
    assert(s@ =~= without_digest(image_ref@));
    let part = chars_of(s);
    let colon = behind_last(&part, ':', part.len());
    let slash = behind_last(&part, '/', part.len());
    if colon > slash {
        let name = s.substring_char(0, colon - 1).to_owned();
        let tag = s.substring_char(colon, part.len()).to_owned();
        assert(name@ =~= s@.take(colon - 1));
        assert(tag@ =~= s@.skip(colon as int));
        (name, Some(tag))
    } else {
        (s.to_owned(), None)
    }
}

/// An image reference pinned to a digest: the repository, without its tag.
pub open spec fn pinned_text(image_ref: Seq<char>, digest: Seq<char>) -> Seq<char> {
    image_parts(image_ref).0 + "@"@ + digest
}

/// An image reference pinned to a digest.
pub fn pinned_reference(image_ref: &str, digest: &str) -> (out: String)
    ensures
        out@ == pinned_text(image_ref@, digest@),
{
    let (mut out, _) = split_image_ref(image_ref);
    out.append("@");
    out.append(digest);
    out
}

/// The transport form of an image reference.
fn docker_reference(image_ref: &str) -> (out: String)
    ensures
        out@ == "docker://"@ + image_ref@,
{
    let mut out = "docker://".to_owned();
    out.append(image_ref);
    out
}

/// The arguments with which `skopeo` prints the digest of an image.
pub open spec fn digest_query_texts(image_ref: Seq<char>) -> Seq<Seq<char>> {
    seq![
        "inspect"@,
        "--override-os"@,
        "linux"@,
        "--format"@,
        "{{.Digest}}"@,
        "docker://"@ + image_ref,
    ]
}

/// The arguments with which `skopeo` prints the digest of an image.
pub fn digest_query(image_ref: &str) -> (args: Vec<String>)
    ensures
        text::texts(args@) == digest_query_texts(image_ref@),
{
    let args = vec![
        "inspect".to_owned(),
        "--override-os".to_owned(),
        "linux".to_owned(),
        "--format".to_owned(),
        "{{.Digest}}".to_owned(),
        docker_reference(image_ref),
    ];
    assert(text::texts(args@) =~= digest_query_texts(image_ref@));
    args
}

/// The arguments with which `skopeo` prints the manifest of an image.
pub open spec fn manifest_query_texts(image_ref: Seq<char>) -> Seq<Seq<char>> {
    seq![
        "inspect"@,
        "--override-os"@,
        "linux"@,
        "--raw"@,
        "docker://"@ + image_ref,
    ]
}

/// The arguments with which `skopeo` prints the manifest of an image.
pub fn manifest_query(image_ref: &str) -> (args: Vec<String>)
    ensures
        text::texts(args@) == manifest_query_texts(image_ref@),
{
    let args = vec![
        "inspect".to_owned(),
        "--override-os".to_owned(),
        "linux".to_owned(),
        "--raw".to_owned(),
        docker_reference(image_ref),
    ];
    assert(text::texts(args@) =~= manifest_query_texts(image_ref@));
    args
}

/// The arguments with which `skopeo` copies an image into an OCI layout.
pub open spec fn copy_texts(image_ref: Seq<char>, oci_path: Seq<char>) -> Seq<Seq<char>> {
    seq![
        "copy"@,
        "--override-os"@,
        "linux"@,
        "docker://"@ + image_ref,
        "oci:"@ + oci_path,
    ]
}

/// The arguments with which `skopeo` copies an image into an OCI layout.
pub fn copy_request(image_ref: &str, oci_path: &str) -> (args: Vec<String>)
    ensures
        text::texts(args@) == copy_texts(image_ref@, oci_path@),
{
    let mut layout = "oci:".to_owned();
    layout.append(oci_path);
    let args = vec![
        "copy".to_owned(),
        "--override-os".to_owned(),
        "linux".to_owned(),
        docker_reference(image_ref),
        layout,
    ];
    assert(text::texts(args@) =~= copy_texts(image_ref@, oci_path@));
    args
}

/// The digest that an answer to [`digest_query`] states, or what is said of
/// an answer that states none.
pub open spec fn answered_digest(image_ref: Seq<char>, output: CommandOutput) -> Result<
    Seq<char>,
    Seq<char>,
> {
    if !output.success {
        Err(
            "skopeo digest lookup failed for "@ + image_ref + ": "@ + text::lossy_decoded(
                output.stderr@,
            ),
        )
    } else if !vstd::utf8::valid_utf8(output.stdout@) {
        Err(text::utf8_complaint(output.stdout@))
    } else {
        Ok(text::trimmed(vstd::utf8::decode_utf8(output.stdout@)))
    }
}

/// The digest that an answer to [`digest_query`] states.
pub fn resolve_digest(image_ref: &str, output: &CommandOutput) -> (r: Result<String, String>)
    ensures
        text::result_text(r) == answered_digest(image_ref@, *output),
{
    if !output.success {
        let mut out = "skopeo digest lookup failed for ".to_owned();
        out.append(image_ref);
        out.append(": ");
        out.append(lossy_text(output.stderr.as_slice()).as_str());
        return Err(out);
    }
    match utf8_text(output.stdout.as_slice()) {
        Ok(digest) => Ok(trim(digest.as_str())),
        Err(e) => Err(e),
    }
}

/// What the annotations of a fragment image say about the fragment.
#[derive(Debug, Clone)]
pub struct AnnotationFields {
    pub name: Option<String>,
    pub version: Option<String>,
    pub description: Option<String>,
    pub vendor: Option<String>,
    pub repos: Option<Vec<String>>,
    pub required: Option<Vec<String>>,
}

/// What [`AnnotationFields`] say.
#[verifier::ext_equal]
pub struct FieldsView {
    pub name: Option<Seq<char>>,
    pub version: Option<Seq<char>>,
    pub description: Option<Seq<char>>,
    pub vendor: Option<Seq<char>>,
    pub repos: Option<Seq<Seq<char>>>,
    pub required: Option<Seq<Seq<char>>>,
}

impl View for AnnotationFields {
    type V = FieldsView;

    open spec fn view(&self) -> FieldsView {
        FieldsView {
            name: text::opt_text(self.name),
            version: text::opt_text(self.version),
            description: text::opt_text(self.description),
            vendor: text::opt_text(self.vendor),
            repos: json::opt_texts(self.repos),
            required: json::opt_texts(self.required),
        }
    }
}

/// What an optional fragment says.
pub open spec fn fragment_view(fragment: Option<Fragment>) -> Option<FragmentView> {
    match fragment {
        Some(fragment) => Some(fragment@),
        None => None,
    }
}

/// The fragment that annotations describe: one with a name that follows the
/// grammar and a version. What else is missing is empty, and annotations
/// never carry conflicts.
pub open spec fn described_fragment(fields: FieldsView) -> Option<FragmentView> {
    match (fields.name, fields.version) {
        (Some(name), Some(version)) => if fragment::valid_fragment_name(name) {
            Some(
                FragmentView {
                    name,
                    version,
                    description: match fields.description {
                        Some(description) => description,
                        None => Seq::empty(),
                    },
                    vendor: fields.vendor,
                    repos: match fields.repos {
                        Some(repos) => repos,
                        None => Seq::empty(),
                    },
                    required: match fields.required {
                        Some(required) => required,
                        None => Seq::empty(),
                    },
                    conflicts: Seq::empty(),
                },
            )
        } else {
            None
        },
        _ => None,
    }
}

/// The fragment that annotations describe. `None` when the name or the
/// version is missing or the name does not follow the grammar.
pub fn fragment_from_fields(fields: AnnotationFields) -> (r: Option<Fragment>)
    ensures
        fragment_view(r) == described_fragment(fields@),
{
    let (name, version) = match (fields.name, fields.version) {
        (Some(name), Some(version)) => (name, version),
        _ => {
            return None;
        },
    };
    let name = match FragmentName::new(name.as_str()) {
        Ok(name) => name,
        Err(_) => {
            return None;
        },
    };
    let description = match fields.description {
        Some(description) => description,
        None => String::new(),
    };
    let repos = match fields.repos {
        Some(repos) => repos,
        None => Vec::new(),
    };
    let required = match fields.required {
        Some(required) => required,
        None => Vec::new(),
    };
    let r = Fragment {
        name,
        version,
        description,
        vendor: fields.vendor,
        provides: FragmentProvides { repos },
        packages: FragmentPackages { required },
        conflicts: FragmentConflicts { fragments: Vec::new() },
    };
    proof {
        assert(text::texts(r.conflicts.fragments@) =~= Seq::empty());
        assert(fields.repos is None ==> text::texts(r.provides.repos@) =~= Seq::empty());
        assert(fields.required is None ==> text::texts(r.packages.required@) =~= Seq::empty());
        assert(fields.description is None ==> r.description@ =~= Seq::empty());
    }
    Some(r)
}

/// The list that an annotation holds as a JSON array of strings.
pub open spec fn list_annotation(
    annotations: Seq<(Seq<char>, Seq<char>)>,
    key: Seq<char>,
) -> Option<Seq<Seq<char>>> {
    match json::string_member(annotations, key) {
        Some(list) => json::string_list(list),
        None => None,
    }
}

/// The list that an annotation holds as a JSON array of strings.
fn get_list(annotations: &[JsonMember], key: &str) -> (r: Option<Vec<String>>)
    ensures
        json::opt_texts(r) == list_annotation(json::member_texts(annotations@), key@),
{
    match get_string(annotations, key) {
        Some(list) => json_string_list(list.as_str()),
        None => None,
    }
}

/// What annotations say about a fragment: the values under the keys of this
/// project, and under no others.
pub open spec fn annotation_fields(annotations: Seq<(Seq<char>, Seq<char>)>) -> FieldsView {
    FieldsView {
        name: json::string_member(annotations, NAME_ANNOTATION_KEY@),
        version: json::string_member(annotations, VERSION_ANNOTATION_KEY@),
        description: json::string_member(annotations, DESCRIPTION_ANNOTATION_KEY@),
        vendor: json::string_member(annotations, VENDOR_ANNOTATION_KEY@),
        repos: list_annotation(annotations, REPOS_ANNOTATION_KEY@),
        required: list_annotation(annotations, REQUIRED_ANNOTATION_KEY@),
    }
}

/// Map the `annotations` object of an OCI manifest onto a [`Fragment`].
///
/// `None` when a required key is missing or when the annotated name does not
/// satisfy the fragment-name grammar; the caller falls back to layer
/// extraction. Falling back rather than failing is deliberate: the
/// annotations are a cache of the in-layer `fragment.toml`, which is
/// authoritative, so a bad annotation costs a layer pull and then either
/// resolves against the real name or is rejected there.
pub fn fragment_from_annotations(annotations: &[JsonMember]) -> (r: Option<Fragment>)
    ensures
        fragment_view(r) == described_fragment(
            annotation_fields(json::member_texts(annotations@)),
        ),
{
    let fields = AnnotationFields {
        name: get_string(annotations, NAME_ANNOTATION_KEY),
        version: get_string(annotations, VERSION_ANNOTATION_KEY),
        description: get_string(annotations, DESCRIPTION_ANNOTATION_KEY),
        vendor: get_string(annotations, VENDOR_ANNOTATION_KEY),
        repos: get_list(annotations, REPOS_ANNOTATION_KEY),
        required: get_list(annotations, REQUIRED_ANNOTATION_KEY),
    };
    fragment_from_fields(fields)
}

/// What the mounts annotation of a fragment image says.
#[derive(Debug, Clone)]
pub enum MountAnnotation {
    /// There is none.
    Absent,
    /// It is not a JSON array of usable targets.
    Unusable,
    /// The mount points it names, in its order.
    Points(Vec<MountPoint>),
}

/// What a [`MountAnnotation`] says.
pub enum MountAnnotationView {
    Absent,
    Unusable,
    Points(Seq<Seq<char>>),
}

impl View for MountAnnotation {
    type V = MountAnnotationView;

    open spec fn view(&self) -> MountAnnotationView {
        match self {
            MountAnnotation::Absent => MountAnnotationView::Absent,
            MountAnnotation::Unusable => MountAnnotationView::Unusable,
            MountAnnotation::Points(points) => MountAnnotationView::Points(
                mount::point_paths(points@),
            ),
        }
    }
}

/// The mount points that a list of targets names, if every target is usable.
pub open spec fn named_points(targets: Seq<Seq<char>>) -> MountAnnotationView {
    if forall|i: int| 0 <= i < targets.len() ==> mount::usable_target(#[trigger] targets[i]) {
        MountAnnotationView::Points(targets.map_values(|t: Seq<char>| t.skip(1)))
    } else {
        MountAnnotationView::Unusable
    }
}

/// The mount points that a list of targets names, if every target is usable.
pub fn points_from_targets(targets: &[String]) -> (r: MountAnnotation)
    ensures
        r@ == named_points(text::texts(targets@)),
{
    let ghost all = text::texts(targets@);
    let mut points: Vec<MountPoint> = Vec::new();
    for i in 0..targets.len()
        invariant
            all == text::texts(targets@),
            forall|j: int| 0 <= j < i ==> mount::usable_target(#[trigger] all[j]),
            mount::point_paths(points@) == all.take(i as int).map_values(
                |t: Seq<char>| t.skip(1),
            ),
    {
        assert(all[i as int] == targets@[i as int]@);
        match MountPoint::from_target(targets[i].as_str()) {
            Ok(point) => {
                let ghost before = mount::point_paths(points@);
                let ghost added = point@;
                points.push(point);
                assert(mount::point_paths(points@) =~= before.push(added));
                assert(mount::point_paths(points@) =~= all.take(i + 1).map_values(
                    |t: Seq<char>| t.skip(1),
                ));
            },
            Err(_) => {
                return MountAnnotation::Unusable;
            },
        }
    }
    assert(all.take(all.len() as int) =~= all);
    MountAnnotation::Points(points)
}

/// What the mounts annotation among `annotations` says.
pub open spec fn annotated_mounts(
    annotations: Seq<(Seq<char>, Seq<char>)>,
) -> MountAnnotationView {
    match json::string_member(annotations, MOUNTS_ANNOTATION_KEY@) {
        None => MountAnnotationView::Absent,
        Some(list) => match json::string_list(list) {
            None => MountAnnotationView::Unusable,
            Some(targets) => named_points(targets),
        },
    }
}

/// What the mounts annotation among `annotations` says.
pub fn mounts_from_annotations(annotations: &[JsonMember]) -> (r: MountAnnotation)
    ensures
        r@ == annotated_mounts(json::member_texts(annotations@)),
{
    match get_string(annotations, MOUNTS_ANNOTATION_KEY) {
        None => MountAnnotation::Absent,
        Some(list) => match json_string_list(list.as_str()) {
            None => MountAnnotation::Unusable,
            Some(targets) => points_from_targets(&targets),
        },
    }
}

/// The annotations of a manifest: none where it has no `annotations` object,
/// the parser's message where it is not JSON.
pub open spec fn annotations_of(
    manifest: Result<Option<Seq<(Seq<char>, Seq<char>)>>, Seq<char>>,
) -> Result<Seq<(Seq<char>, Seq<char>)>, Seq<char>> {
    match manifest {
        Err(e) => Err(e),
        Ok(None) => Ok(Seq::empty()),
        Ok(Some(members)) => match json::member(members, "annotations"@) {
            None => Ok(Seq::empty()),
            Some(value) => match json::object_members(vstd::utf8::encode_utf8(value)) {
                Ok(Some(annotations)) => Ok(annotations),
                _ => Ok(Seq::empty()),
            },
        },
    }
}

/// What reading annotations gave.
pub open spec fn annotations_view(r: Result<Vec<JsonMember>, String>) -> Result<
    Seq<(Seq<char>, Seq<char>)>,
    Seq<char>,
> {
    match r {
        Ok(annotations) => Ok(json::member_texts(annotations@)),
        Err(e) => Err(e@),
    }
}

/// The annotations of an OCI manifest.
pub fn manifest_annotations(manifest: &[u8]) -> (r: Result<Vec<JsonMember>, String>)
    ensures
        annotations_view(r) == annotations_of(json::object_members(manifest@)),
{
    let members = match json_object(manifest) {
        Err(e) => {
            return Err(e);
        },
        Ok(None) => Vec::new(),
        Ok(Some(members)) => members,
    };
    let mut annotations: Vec<JsonMember> = Vec::new();
    assert(json::member_texts(annotations@) =~= Seq::empty());
    assert(members@.len() == 0 ==> json::member_texts(members@) =~= Seq::empty());
    if let Some(value) = get_member(&members, "annotations") {
        if let Ok(Some(found)) = json_object(value.as_bytes()) {
            annotations = found;
        }
    }
    Ok(annotations)
}

/// A fragment as its annotations describe it.
#[derive(Debug, Clone)]
pub struct AnnotatedFragment {
    pub fragment: Fragment,
    pub mount_points: Vec<MountPoint>,
}

/// What an optional [`AnnotatedFragment`] says.
pub open spec fn annotated_view(r: Option<AnnotatedFragment>) -> Option<
    (FragmentView, Seq<Seq<char>>),
> {
    match r {
        Some(annotated) => Some((annotated.fragment@, mount::point_paths(annotated.mount_points@))),
        None => None,
    }
}

/// The fragment and the mount points that annotations describe. Annotations
/// that describe no fragment, or whose mounts cannot be used, describe
/// nothing.
pub open spec fn described(
    fragment: Option<FragmentView>,
    mounts: MountAnnotationView,
) -> Option<(FragmentView, Seq<Seq<char>>)> {
    match (fragment, mounts) {
        (Some(fragment), MountAnnotationView::Absent) => Some((fragment, Seq::empty())),
        (Some(fragment), MountAnnotationView::Points(points)) => Some((fragment, points)),
        _ => None,
    }
}

/// What annotations describe.
pub fn annotated_fragment(fragment: Option<Fragment>, mounts: MountAnnotation) -> (r: Option<
    AnnotatedFragment,
>)
    ensures
        annotated_view(r) == described(fragment_view(fragment), mounts@),
{
    match (fragment, mounts) {
        (Some(fragment), MountAnnotation::Absent) => {
            let r = AnnotatedFragment { fragment, mount_points: Vec::new() };
            assert(mount::point_paths(r.mount_points@) =~= Seq::empty());
            Some(r)
        },
        (Some(fragment), MountAnnotation::Points(points)) => Some(
            AnnotatedFragment { fragment, mount_points: points },
        ),
        _ => None,
    }
}

/// What the annotation fast path gives for an answer to [`manifest_query`]:
/// nothing where the query failed.
pub open spec fn fast_path(output: CommandOutput) -> Result<
    Option<(FragmentView, Seq<Seq<char>>)>,
    Seq<char>,
> {
    if !output.success {
        Ok(None)
    } else {
        match annotations_of(json::object_members(output.stdout@)) {
            Err(e) => Err(e),
            Ok(annotations) => Ok(
                described(
                    described_fragment(annotation_fields(annotations)),
                    annotated_mounts(annotations),
                ),
            ),
        }
    }
}

/// Try the OCI annotation fast path: read fragment metadata from manifest
/// annotations without pulling any layers. `output` answers
/// [`manifest_query`].
pub fn try_annotation_fast_path(output: &CommandOutput) -> (r: Result<
    Option<AnnotatedFragment>,
    String,
>)
    ensures
        match r {
            Ok(annotated) => Ok(annotated_view(annotated)),
            Err(e) => Err(e@),
        } == fast_path(*output),
{
    if !output.success {
        return Ok(None);
    }
    match manifest_annotations(output.stdout.as_slice()) {
        Err(e) => Err(e),
        Ok(annotations) => Ok(
            annotated_fragment(
                fragment_from_annotations(&annotations),
                mounts_from_annotations(&annotations),
            ),
        ),
    }
}

/// Annotations that agree under the keys of this project describe the same
/// fragment and mounts, whatever else they hold.
pub proof fn law_other_annotations_are_ignored(
    a: Seq<(Seq<char>, Seq<char>)>,
    b: Seq<(Seq<char>, Seq<char>)>,
)
    requires
        json::member(a, NAME_ANNOTATION_KEY@) == json::member(b, NAME_ANNOTATION_KEY@),
        json::member(a, VERSION_ANNOTATION_KEY@) == json::member(b, VERSION_ANNOTATION_KEY@),
        json::member(a, DESCRIPTION_ANNOTATION_KEY@) == json::member(
            b,
            DESCRIPTION_ANNOTATION_KEY@,
        ),
        json::member(a, VENDOR_ANNOTATION_KEY@) == json::member(b, VENDOR_ANNOTATION_KEY@),
        json::member(a, REPOS_ANNOTATION_KEY@) == json::member(b, REPOS_ANNOTATION_KEY@),
        json::member(a, REQUIRED_ANNOTATION_KEY@) == json::member(b, REQUIRED_ANNOTATION_KEY@),
        json::member(a, MOUNTS_ANNOTATION_KEY@) == json::member(b, MOUNTS_ANNOTATION_KEY@),
    ensures
        described_fragment(annotation_fields(a)) == described_fragment(annotation_fields(b)),
        annotated_mounts(a) == annotated_mounts(b),
{
}

/// Annotations never yield a fragment under a name that the grammar refuses.
pub proof fn law_annotated_names_follow_the_grammar(annotations: Seq<(Seq<char>, Seq<char>)>)
    ensures
        described_fragment(annotation_fields(annotations)) matches Some(fragment)
            ==> fragment::valid_fragment_name(fragment.name),
{
}

proof fn lemma_last_before(s: Seq<char>, c: char, n: int)
    requires
        0 <= n <= s.len(),
    ensures
        -1 <= last_before(s, c, n) < n || (n == 0 && last_before(s, c, n) == -1),
        last_before(s, c, n) >= 0 ==> s[last_before(s, c, n)] == c,
        forall|j: int| last_before(s, c, n) < j < n ==> s[j] != c,
    decreases n,
{
    if n > 0 && s[n - 1] != c {
        lemma_last_before(s, c, n - 1);
    }
}

proof fn lemma_without_digest(image: Seq<char>, digest: Seq<char>)
    requires
        !image.contains('@'),
    ensures
        without_digest(image) == image,
        without_digest(image + seq!['@'] + digest) == image,
{
    text::lemma_find_from(image, '@', 0);
    let k = text::find_from(image, '@', 0);
    if k < image.len() {
        assert(image.contains(image[k]));
    }
    assert(image.take(image.len() as int) =~= image);
    let full = image + seq!['@'] + digest;
    assert forall|j: int| 0 <= j < image.len() implies full[j] != '@' by {
        assert(full[j] == image[j]);
        assert(image.contains(image[j]));
    }
    text::lemma_find_from_is(full, '@', 0, image.len() as int);
    assert(full.take(image.len() as int) =~= image);
}

/// An image reference is a repository, a tag behind a colon if it has one, and
/// a digest behind an `@` if it is pinned. What stands behind the last colon
/// is a tag, unless a separator stands behind that colon too. A digest changes
/// nothing about the other two, and pinning puts it in place of the tag.
pub proof fn law_image_reference_is_taken_apart(
    repository: Seq<char>,
    tag: Seq<char>,
    digest: Seq<char>,
)
    requires
        !repository.contains('@'),
        !tag.contains('@'),
        !tag.contains(':'),
        !tag.contains('/'),
    ensures
        image_parts(repository + seq![':'] + tag) == (repository, Some(tag)),
        image_parts(repository + seq![':'] + tag + seq!['@'] + digest) == (repository, Some(tag)),
        pinned_text(repository + seq![':'] + tag, digest) == repository + seq!['@'] + digest,
        ({
            let untagged = forall|i: int|
                0 <= i < repository.len() && #[trigger] repository[i] == ':' ==> exists|j: int|
                    i < j < repository.len() && #[trigger] repository[j] == '/';
            untagged ==> {
                &&& image_parts(repository) == (repository, None::<Seq<char>>)
                &&& image_parts(repository + seq!['@'] + digest) == (
                    repository,
                    None::<Seq<char>>,
                )
                &&& pinned_text(repository, digest) == repository + seq!['@'] + digest
            }
        }),
{
    let s = repository + seq![':'] + tag;
    assert(!s.contains('@')) by {
        if s.contains('@') {
            let i = choose|i: int| 0 <= i < s.len() && s[i] == '@';
            if i < repository.len() {
                assert(repository.contains(repository[i]));
            } else if i > repository.len() {
                assert(tag.contains(tag[i - repository.len() - 1]));
            }
        }
    }
    lemma_without_digest(s, digest);
    lemma_without_digest(repository, digest);
    let n = s.len() as int;
    lemma_last_before(s, ':', n);
    lemma_last_before(s, '/', n);
    let at = repository.len() as int;
    assert(s[at] == ':');
    assert forall|j: int| at < j < n implies s[j] != ':' && s[j] != '/' by {
        assert(s[j] == tag[j - at - 1]);
        assert(tag.contains(tag[j - at - 1]));
    }
    assert(last_before(s, ':', n) == at);
    assert(last_before(s, '/', n) < at);
    assert(s.take(at) =~= repository);
    assert(s.skip(at + 1) =~= tag);
    reveal_strlit("@");
    assert("@"@ =~= seq!['@']);
    let m = repository.len() as int;
    lemma_last_before(repository, ':', m);
    lemma_last_before(repository, '/', m);
    if forall|i: int|
        0 <= i < repository.len() && #[trigger] repository[i] == ':' ==> exists|j: int|
            i < j < repository.len() && #[trigger] repository[j] == '/' {
        let colon = last_before(repository, ':', m);
        if colon >= 0 {
            assert(repository[colon] == ':');
            let j = choose|j: int| colon < j < repository.len() && #[trigger] repository[j] == '/';
            assert(last_before(repository, '/', m) >= j);
        }
    }
}

/// What is asked for names the image and nothing else: the last argument of a
/// query is the image in its transport form, a digest query asks for the
/// digest alone, a manifest query for the manifest as it is, and a copy goes
/// into an OCI layout. Images are always those for Linux.
pub proof fn law_requests_name_the_image(image_ref: Seq<char>, oci_path: Seq<char>)
    ensures
        digest_query_texts(image_ref).len() == 6,
        digest_query_texts(image_ref).last() == "docker://"@ + image_ref,
        digest_query_texts(image_ref)[0] == "inspect"@,
        digest_query_texts(image_ref).subrange(1, 3) == seq!["--override-os"@, "linux"@],
        digest_query_texts(image_ref).subrange(3, 5) == seq!["--format"@, "{{.Digest}}"@],
        manifest_query_texts(image_ref).len() == 5,
        manifest_query_texts(image_ref).last() == "docker://"@ + image_ref,
        manifest_query_texts(image_ref)[0] == "inspect"@,
        manifest_query_texts(image_ref).subrange(1, 3) == seq!["--override-os"@, "linux"@],
        manifest_query_texts(image_ref)[3] == "--raw"@,
        copy_texts(image_ref, oci_path).len() == 5,
        copy_texts(image_ref, oci_path)[0] == "copy"@,
        copy_texts(image_ref, oci_path).subrange(1, 3) == seq!["--override-os"@, "linux"@],
        copy_texts(image_ref, oci_path)[3] == "docker://"@ + image_ref,
        copy_texts(image_ref, oci_path)[4] == "oci:"@ + oci_path,
{
    assert(digest_query_texts(image_ref).subrange(1, 3) =~= seq!["--override-os"@, "linux"@]);
    assert(digest_query_texts(image_ref).subrange(3, 5) =~= seq!["--format"@, "{{.Digest}}"@]);
    assert(manifest_query_texts(image_ref).subrange(1, 3) =~= seq!["--override-os"@, "linux"@]);
    assert(copy_texts(image_ref, oci_path).subrange(1, 3) =~= seq!["--override-os"@, "linux"@]);
}

/// A digest is what the command printed, without the white space around it,
/// and there is one exactly when the command succeeded and printed text. A
/// failed command is reported with the image and with what it said.
pub proof fn law_digest_is_what_was_printed(image_ref: Seq<char>, output: CommandOutput)
    ensures
        answered_digest(image_ref, output) is Ok <==> output.success && vstd::utf8::valid_utf8(
            output.stdout@,
        ),
        answered_digest(image_ref, output) matches Ok(digest) ==> digest == text::trimmed(
            vstd::utf8::decode_utf8(output.stdout@),
        ),
        !output.success ==> answered_digest(image_ref, output) == Err::<Seq<char>, Seq<char>>(
            "skopeo digest lookup failed for "@ + image_ref + ": "@ + text::lossy_decoded(
                output.stderr@,
            ),
        ),
{
}

/// Annotations describe a fragment exactly when they give a version and a
/// name that follows the grammar. The fragment has every field that they
/// give, as they give it, nothing in place of those that they do not, and
/// never a conflict.
pub proof fn law_annotations_are_taken_as_they_are(
    annotations: Seq<(Seq<char>, Seq<char>)>,
)
    ensures
        ({
            let text_of = |key: Seq<char>| json::string_member(annotations, key);
            let list_of = |key: Seq<char>|
                match json::string_member(annotations, key) {
                    Some(list) => match json::string_list(list) {
                        Some(items) => items,
                        None => Seq::empty(),
                    },
                    None => Seq::empty(),
                };
            let name = text_of("com.github.marrusl.osfragment.name"@);
            let version = text_of("com.github.marrusl.osfragment.version"@);
            let found = described_fragment(annotation_fields(annotations));
            &&& found is Some <==> version is Some && name is Some
                && fragment::valid_fragment_name(name->0)
            &&& found matches Some(f) ==> {
                &&& Some(f.name) == name
                &&& Some(f.version) == version
                &&& f.description == match text_of(
                    "com.github.marrusl.osfragment.description"@,
                ) {
                    Some(description) => description,
                    None => Seq::empty(),
                }
                &&& f.vendor == text_of("com.github.marrusl.osfragment.vendor"@)
                &&& f.repos == list_of("com.github.marrusl.osfragment.provides.repos"@)
                &&& f.required == list_of("com.github.marrusl.osfragment.packages.required"@)
                &&& f.conflicts.len() == 0
            }
        }),
{
}

/// A list of targets names one mount point for each of them, in order, by
/// what stands behind the leading separator, exactly when each is an absolute
/// path of ordinary names.
pub proof fn law_targets_name_mount_points(targets: Seq<Seq<char>>)
    ensures
        named_points(targets) is Points <==> forall|i: int|
            0 <= i < targets.len() ==> (#[trigger] targets[i]).len() > 0 && targets[i][0] == '/'
                && path::ordinary_path(targets[i].skip(1)),
        named_points(targets) matches MountAnnotationView::Points(points) ==> {
            &&& points.len() == targets.len()
            &&& forall|i: int|
                0 <= i < points.len() ==> #[trigger] points[i] == targets[i].skip(1)
        },
        named_points(targets) !is Absent,
{
    if forall|i: int|
        0 <= i < targets.len() ==> (#[trigger] targets[i]).len() > 0 && targets[i][0] == '/'
            && path::ordinary_path(targets[i].skip(1)) {
        assert forall|i: int| 0 <= i < targets.len() implies mount::usable_target(
            #[trigger] targets[i],
        ) by {}
    }
    if named_points(targets) is Points {
        assert forall|i: int| 0 <= i < targets.len() implies (#[trigger] targets[i]).len() > 0
            && targets[i][0] == '/' && path::ordinary_path(targets[i].skip(1)) by {
            assert(mount::usable_target(targets[i]));
        }
    }
}

/// Reading annotations alone gives a fragment exactly when the query
/// succeeded, the manifest can be read, its annotations describe a fragment,
/// and its mounts annotation is missing or names mount points. It fails only
/// over a manifest that cannot be read.
pub proof fn law_annotations_alone_describe_a_fragment(output: CommandOutput)
    ensures
        ({
            let annotations = annotations_of(json::object_members(output.stdout@));
            let fragment = described_fragment(annotation_fields(annotations->Ok_0));
            let mounts = json::string_member(
                annotations->Ok_0,
                "com.github.marrusl.osfragment.mounts"@,
            );
            let points = match mounts {
                None => Some(Seq::empty()),
                Some(list) => match json::string_list(list) {
                    None => None,
                    Some(targets) => match named_points(targets) {
                        MountAnnotationView::Points(points) => Some(points),
                        _ => None,
                    },
                },
            };
            &&& fast_path(output) is Err <==> output.success && json::object_members(
                output.stdout@,
            ) is Err
            &&& fast_path(output) matches Ok(found) ==> {
                &&& found is Some <==> output.success && fragment is Some && points is Some
                &&& found matches Some(both) ==> both == (fragment->0, points->0)
            }
        }),
{
}

/// The annotations of a manifest are the members of the object under its
/// `annotations` key, and none where there is no such object.
pub proof fn law_annotations_stand_under_their_key(
    members: Seq<(Seq<char>, Seq<char>)>,
)
    ensures
        annotations_of(Ok(Some(members))) == Ok::<Seq<(Seq<char>, Seq<char>)>, Seq<char>>(
            match json::member(members, "annotations"@) {
                Some(value) => match json::object_members(vstd::utf8::encode_utf8(value)) {
                    Ok(Some(annotations)) => annotations,
                    _ => Seq::empty(),
                },
                None => Seq::empty(),
            },
        ),
        annotations_of(Ok(None)) == Ok::<Seq<(Seq<char>, Seq<char>)>, Seq<char>>(Seq::empty()),
{
}

} // verus!
