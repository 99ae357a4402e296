//! OCI layouts: the directory that an image is copied into, with an index
//! that leads to a manifest that leads to the layers.

use vstd::prelude::*;

use crate::json;
use crate::json::{get_member, get_string, json_array, json_object, JsonMember};
use crate::path;
use crate::path::join_path;
use crate::registry;
use crate::registry::copy_request;
use crate::text;
use crate::text::replace_char;

verus! {

/// Where a layout keeps the blob of a digest.
pub open spec fn blob_place(oci_path: Seq<char>, digest: Seq<char>) -> Seq<char> {
    path::path_join(path::path_join(oci_path, "blobs"@), text::replaced(digest, ':', '/'))
}

/// Where a layout keeps the blob of a digest.
pub fn blob_path(oci_path: &str, digest: &str) -> (out: String)
    ensures
        out@ == blob_place(oci_path@, digest@),
{
    join_path(join_path(oci_path, "blobs").as_str(), replace_char(digest, ':', '/').as_str())
}

/// The array that a document holds under a key, each item as JSON text.
pub open spec fn array_member(
    members: Option<Seq<(Seq<char>, Seq<char>)>>,
    key: Seq<char>,
) -> Option<Seq<Seq<char>>> {
    match members {
        None => None,
        Some(members) => match json::member(members, key) {
            None => None,
            Some(value) => json::array_items(value),
        },
    }
}

/// The array that a document holds under a key, each item as JSON text.
fn get_array(members: &Option<Vec<JsonMember>>, key: &str) -> (r: Option<Vec<String>>)
    ensures
        json::opt_texts(r) == array_member(
            match *members {
                Some(members) => Some(json::member_texts(members@)),
                None => None,
            },
            key@,
        ),
{
    match members {
        None => None,
        Some(members) => match get_member(members, key) {
            None => None,
            Some(value) => json_array(value),
        },
    }
}

/// The digest that a descriptor names.
pub open spec fn descriptor_digest(descriptor: Seq<char>) -> Option<Seq<char>> {
    match json::object_members(vstd::utf8::encode_utf8(descriptor)) {
        Ok(Some(members)) => json::string_member(members, "digest"@),
        _ => None,
    }
}

/// The digest that a descriptor names.
fn get_digest(descriptor: &str) -> (r: Option<String>)
    ensures
        text::opt_text(r) == descriptor_digest(descriptor@),
{
    match json_object(descriptor.as_bytes()) {
        Ok(Some(members)) => get_string(&members, "digest"),
        _ => None,
    }
}

/// The digest of the first manifest that an index names, given what the index
/// holds.
pub open spec fn first_manifest(
    index: Result<Option<Seq<(Seq<char>, Seq<char>)>>, Seq<char>>,
) -> Result<Seq<char>, Seq<char>> {
    match index {
        Err(e) => Err(e),
        Ok(members) => match array_member(members, "manifests"@) {
            Some(manifests) if manifests.len() > 0 => match descriptor_digest(manifests[0]) {
                Some(digest) => Ok(digest),
                None => Err("no digest in manifest descriptor"@),
            },
            _ => Err("no manifests in OCI index"@),
        },
    }
}

/// The digest of the first manifest that the `index.json` of a layout names.
pub fn manifest_digest(index: &str) -> (r: Result<String, String>)
    ensures
        text::result_text(r) == first_manifest(
            json::object_members(vstd::utf8::encode_utf8(index@)),
        ),
{
    let members = match json_object(index.as_bytes()) {
        Ok(members) => members,
        Err(e) => {
            return Err(e);
        },
    };
    match get_array(&members, "manifests") {
        Some(manifests) => {
            if manifests.len() > 0 {
                assert(text::texts(manifests@)[0] == manifests@[0]@);
                match get_digest(manifests[0].as_str()) {
                    Some(digest) => Ok(digest),
                    None => Err("no digest in manifest descriptor".to_owned()),
                }
            } else {
                Err("no manifests in OCI index".to_owned())
            }
        },
        None => Err("no manifests in OCI index".to_owned()),
    }
}

/// The digest of each layer that a manifest lists, where its descriptor names
/// one, given what the manifest holds.
pub open spec fn listed_layers(
    manifest: Result<Option<Seq<(Seq<char>, Seq<char>)>>, Seq<char>>,
) -> Result<Seq<Option<Seq<char>>>, Seq<char>> {
    match manifest {
        Err(e) => Err(e),
        Ok(members) => match array_member(members, "layers"@) {
            Some(layers) => Ok(layers.map_values(|layer: Seq<char>| descriptor_digest(layer))),
            None => Err("no layers in manifest"@),
        },
    }
}

/// The texts of a list of optional strings.
pub open spec fn opt_views(list: Seq<Option<String>>) -> Seq<Option<Seq<char>>> {
    list.map_values(|s: Option<String>| text::opt_text(s))
}

/// What looking up the layers of a manifest gave.
pub open spec fn digests_view(r: Result<Vec<Option<String>>, String>) -> Result<
    Seq<Option<Seq<char>>>,
    Seq<char>,
> {
    match r {
        Ok(digests) => Ok(opt_views(digests@)),
        Err(e) => Err(e@),
    }
}

/// The digest of each layer that a manifest lists, where its descriptor names
/// one.
pub fn layer_digests(manifest: &str) -> (r: Result<Vec<Option<String>>, String>)
    ensures
        digests_view(r) == listed_layers(json::object_members(vstd::utf8::encode_utf8(manifest@))),
{
    let members = match json_object(manifest.as_bytes()) {
        Ok(members) => members,
        Err(e) => {
            return Err(e);
        },
    };
    let layers = match get_array(&members, "layers") {
        Some(layers) => layers,
        None => {
            return Err("no layers in manifest".to_owned());
        },
    };
    let ghost named = text::texts(layers@).map_values(
        |layer: Seq<char>| descriptor_digest(layer),
    );
    let mut digests: Vec<Option<String>> = Vec::new();
    for i in 0..layers.len()
        invariant
            named == text::texts(layers@).map_values(|layer: Seq<char>| descriptor_digest(layer)),
            opt_views(digests@) == named.take(i as int),
    {
        let ghost before = opt_views(digests@);
        let digest = get_digest(layers[i].as_str());
        let ghost added = text::opt_text(digest);
        assert(named[i as int] == added);
        digests.push(digest);
        assert(opt_views(digests@) =~= before.push(added));
        assert(opt_views(digests@) =~= named.take(i + 1));
    }
    assert(named.take(named.len() as int) =~= named);
    Ok(digests)
}

/// `answer` is what `ask` may answer for a text.
pub open spec fn answers<T, F: FnOnce(&str) -> T>(ask: F, at: Seq<char>, answer: T) -> bool {
    exists|s: &str| s@ == at && #[trigger] call_ensures(ask, (s,), answer)
}

/// `ask` may be asked for a text.
pub open spec fn may_ask<T, F: FnOnce(&str) -> T>(ask: F, at: Seq<char>) -> bool {
    forall|s: &str| s@ == at ==> #[trigger] call_requires(ask, (s,))
}

/// What a layer holds, or the message of the failure to read it.
pub open spec fn blob_views(reads: Seq<Result<Vec<u8>, String>>) -> Seq<
    Result<Seq<u8>, Seq<char>>,
> {
    reads.map_values(
        |r: Result<Vec<u8>, String>|
            match r {
                Ok(bytes) => Ok(bytes@),
                Err(e) => Err(e@),
            },
    )
}

/// The bytes of each layer.
pub open spec fn layer_views(layers: Seq<Vec<u8>>) -> Seq<Seq<u8>> {
    layers.map_values(|layer: Vec<u8>| layer@)
}

/// What pulling layers gave.
pub open spec fn layers_view(r: Result<Vec<Vec<u8>>, String>) -> Result<Seq<Seq<u8>>, Seq<char>> {
    match r {
        Ok(layers) => Ok(layer_views(layers@)),
        Err(e) => Err(e@),
    }
}

/// The layers from place `i` on behind those already read, or why the first
/// of them that is missing is: its descriptor names no digest, or its blob
/// cannot be read.
pub open spec fn layers_from(
    digests: Seq<Option<Seq<char>>>,
    reads: Seq<Result<Seq<u8>, Seq<char>>>,
    i: int,
    layers: Seq<Seq<u8>>,
) -> Result<Seq<Seq<u8>>, Seq<char>>
    decreases digests.len() - i,
{
    if i >= digests.len() {
        Ok(layers)
    } else {
        match digests[i] {
            None => Err("no digest in layer descriptor"@),
            Some(digest) => match reads[i] {
                Err(e) => Err("reading layer blob "@ + digest + ": "@ + e),
                Ok(bytes) => layers_from(digests, reads, i + 1, layers.push(bytes)),
            },
        }
    }
}

/// `answer` is what `read` may answer for the blob of a layer.
pub open spec fn blob_answered<F: Fn(&str) -> Result<Vec<u8>, String>>(
    read: F,
    oci_path: Seq<char>,
    digest: Option<Seq<char>>,
    answer: Result<Vec<u8>, String>,
) -> bool {
    match digest {
        Some(digest) => answers(read, blob_place(oci_path, digest), answer),
        None => false,
    }
}

/// The answers reach as far as layers are read: to the last layer, to one
/// whose descriptor names no digest, or to a failure.
pub open spec fn read_far_enough(
    digests: Seq<Option<Seq<char>>>,
    reads: Seq<Result<Vec<u8>, String>>,
) -> bool {
    &&& reads.len() <= digests.len()
    &&& reads.len() == digests.len() || digests[reads.len() as int] is None || (reads.len() > 0
        && reads.last() is Err)
}

/// The result is what the answers of `read` for the blobs of the layers, in
/// order, make of them.
pub open spec fn layers_read<F: Fn(&str) -> Result<Vec<u8>, String>>(
    read: F,
    oci_path: Seq<char>,
    digests: Seq<Option<Seq<char>>>,
    result: Result<Seq<Seq<u8>>, Seq<char>>,
) -> bool {
    exists|reads: Seq<Result<Vec<u8>, String>>|
        {
            &&& #[trigger] read_far_enough(digests, reads)
            &&& forall|i: int|
                0 <= i < reads.len() ==> blob_answered(
                    read,
                    oci_path,
                    #[trigger] digests[i],
                    reads[i],
                )
            &&& result == layers_from(digests, blob_views(reads), 0, Seq::empty())
        }
}

/// The layers of an image, given the digest of each and what reading their
/// blobs gave.
pub fn collect_layers(digests: &[Option<String>], reads: Vec<Result<Vec<u8>, String>>) -> (r:
    Result<Vec<Vec<u8>>, String>)
    requires
        read_far_enough(opt_views(digests@), reads@),
    ensures
        layers_view(r) == layers_from(opt_views(digests@), blob_views(reads@), 0, Seq::empty()),
{
    let ghost named = opt_views(digests@);
    let ghost given = reads@;
    let ghost views = blob_views(given);
    let mut rest = reads;
    let mut layers: Vec<Vec<u8>> = Vec::new();
    assert(layer_views(layers@) =~= Seq::empty());
    for i in 0..digests.len()
        invariant
            named == opt_views(digests@),
            views == blob_views(given),
            read_far_enough(named, given),
            i <= given.len(),
            forall|j: int| 0 <= j < i ==> #[trigger] given[j] is Ok,
            given == reads@,
            rest@ == given.skip(i as int),
            layers_from(named, views, 0, Seq::empty()) == layers_from(
                named,
                views,
                i as int,
                layer_views(layers@),
            ),
    {
        assert(named[i as int] == text::opt_text(digests@[i as int]));
        let ghost before = layer_views(layers@);
        match &digests[i] {
            None => {
                return Err("no digest in layer descriptor".to_owned());
            },
            Some(digest) => {
                assert(i < given.len()) by {
                    if i == given.len() {
                        assert(given.len() > 0 ==> given[given.len() - 1] is Ok);
                    }
                }
                let next = rest.remove(0);
                assert(next == given[i as int]);
                assert(rest@ =~= given.skip(i + 1));
                match next {
                    Err(e) => {
                        let mut out = "reading layer blob ".to_owned();
                        out.append(digest.as_str());
                        out.append(": ");
                        out.append(e.as_str());
                        assert(views[i as int] == Err::<Seq<u8>, Seq<char>>(e@));
                        return Err(out);
                    },
                    Ok(bytes) => {
                        let ghost added = bytes@;
                        layers.push(bytes);
                        assert(views[i as int] == Ok::<Seq<u8>, Seq<char>>(added));
                        assert(layer_views(layers@) =~= before.push(added));
                    },
                }
            },
        }
    }
    Ok(layers)
}

/// `reads` are what `read` may answer for the blobs of the first layers, and
/// all of them succeeded.
pub open spec fn read_so_far<F: Fn(&str) -> Result<Vec<u8>, String>>(
    read: F,
    oci_path: Seq<char>,
    digests: Seq<Option<Seq<char>>>,
    reads: Seq<Result<Vec<u8>, String>>,
) -> bool {
    &&& reads.len() <= digests.len()
    &&& forall|i: int|
        0 <= i < reads.len() ==> blob_answered(read, oci_path, #[trigger] digests[i], reads[i])
            && reads[i] is Ok
}

/// The blob of a layer is asked for only once those before it are read.
pub open spec fn reads_in_order<F: Fn(&str) -> Result<Vec<u8>, String>>(
    read: F,
    oci_path: Seq<char>,
    digests: Seq<Option<Seq<char>>>,
) -> bool {
    forall|reads: Seq<Result<Vec<u8>, String>>| #[trigger]
        read_so_far(read, oci_path, digests, reads) && reads.len() < digests.len() ==> (
        digests[reads.len() as int] matches Some(digest) ==> may_ask(
            read,
            blob_place(oci_path, digest),
        ))
}

/// Reads the blobs of the layers, in order, up to the first that is missing.
fn read_blobs(
    oci_path: &str,
    digests: &[Option<String>],
    read: impl Fn(&str) -> Result<Vec<u8>, String>,
) -> (reads: Vec<Result<Vec<u8>, String>>)
    requires
        reads_in_order(read, oci_path@, opt_views(digests@)),
    ensures
        read_far_enough(opt_views(digests@), reads@),
        forall|i: int|
            0 <= i < reads@.len() ==> blob_answered(
                read,
                oci_path@,
                #[trigger] opt_views(digests@)[i],
                reads@[i],
            ),
{
    let ghost named = opt_views(digests@);
    let mut reads: Vec<Result<Vec<u8>, String>> = Vec::new();
    for i in 0..digests.len()
        invariant
            reads_in_order(read, oci_path@, named),
            named == opt_views(digests@),
            reads@.len() == i,
            read_so_far(read, oci_path@, named, reads@),
    {
        assert(named[i as int] == text::opt_text(digests@[i as int]));
        match &digests[i] {
            None => {
                return reads;
            },
            Some(digest) => {
                let at = blob_path(oci_path, digest.as_str());
                let answer = read(at.as_str());
                assert(answers(read, blob_place(oci_path@, digest@), answer));
                let failed = answer.is_err();
                let ghost before = reads@;
                reads.push(answer);
                if failed {
                    return reads;
                }
                assert forall|j: int| 0 <= j < reads@.len() implies blob_answered(
                    read,
                    oci_path@,
                    #[trigger] named[j],
                    reads@[j],
                ) && reads@[j] is Ok by {
                    if j < i {
                        assert(blob_answered(read, oci_path@, named[j], before[j]));
                        assert(reads@[j] == before[j]);
                    }
                }
            },
        }
    }
    reads
}

/// Reads the layers of an image out of a layout, in order, up to the first
/// that is missing.
pub fn read_layers(
    oci_path: &str,
    digests: &[Option<String>],
    read: impl Fn(&str) -> Result<Vec<u8>, String>,
) -> (r: Result<Vec<Vec<u8>>, String>)
    requires
        reads_in_order(read, oci_path@, opt_views(digests@)),
    ensures
        layers_read(read, oci_path@, opt_views(digests@), layers_view(r)),
{
    let reads = read_blobs(oci_path, digests, read);
    collect_layers(digests, reads)
}

/// The result is what the layers that a manifest lists make of it, given what
/// reading the manifest gave.
pub open spec fn manifest_read<F: Fn(&str) -> Result<Vec<u8>, String>>(
    read: F,
    oci_path: Seq<char>,
    manifest: Result<String, String>,
    result: Result<Seq<Seq<u8>>, Seq<char>>,
) -> bool {
    match manifest {
        Err(e) => result == Err::<Seq<Seq<u8>>, Seq<char>>(e@),
        Ok(manifest) => match listed_layers(
            json::object_members(vstd::utf8::encode_utf8(manifest@)),
        ) {
            Err(e) => result == Err::<Seq<Seq<u8>>, Seq<char>>(e),
            Ok(digests) => layers_read(read, oci_path, digests, result),
        },
    }
}

/// The result is what the manifest that an index leads to makes of it, given
/// what reading the index gave.
pub open spec fn index_read<
    T: Fn(&str) -> Result<String, String>,
    F: Fn(&str) -> Result<Vec<u8>, String>,
>(
    read_text: T,
    read: F,
    oci_path: Seq<char>,
    index: Result<String, String>,
    result: Result<Seq<Seq<u8>>, Seq<char>>,
) -> bool {
    match index {
        Err(e) => result == Err::<Seq<Seq<u8>>, Seq<char>>(e@),
        Ok(index) => match first_manifest(
            json::object_members(vstd::utf8::encode_utf8(index@)),
        ) {
            Err(e) => result == Err::<Seq<Seq<u8>>, Seq<char>>(e),
            Ok(digest) => exists|manifest: Result<String, String>|
                {
                    &&& answers(read_text, blob_place(oci_path, digest), manifest)
                    &&& #[trigger] manifest_read(read, oci_path, manifest, result)
                },
        },
    }
}

/// The result is what a finished copy of an image into a layout makes of it:
/// an error where the copy failed, else the layers that the layout's index
/// leads to.
pub open spec fn copy_read<
    T: Fn(&str) -> Result<String, String>,
    F: Fn(&str) -> Result<Vec<u8>, String>,
>(
    read_text: T,
    read: F,
    image_ref: Seq<char>,
    oci_path: Seq<char>,
    copied: Result<bool, String>,
    result: Result<Seq<Seq<u8>>, Seq<char>>,
) -> bool {
    match copied {
        Err(e) => result == Err::<Seq<Seq<u8>>, Seq<char>>("failed to run skopeo copy: "@ + e@),
        Ok(false) => result == Err::<Seq<Seq<u8>>, Seq<char>>(
            "skopeo copy failed for "@ + image_ref,
        ),
        Ok(true) => exists|index: Result<String, String>|
            {
                &&& answers(read_text, path::path_join(oci_path, "index.json"@), index)
                &&& #[trigger] index_read(read_text, read, oci_path, index, result)
            },
    }
}

/// Of a manifest, only the blobs of its layers are asked for.
pub open spec fn manifest_asks<F: Fn(&str) -> Result<Vec<u8>, String>>(
    read: F,
    oci_path: Seq<char>,
    manifest: String,
) -> bool {
    listed_layers(json::object_members(vstd::utf8::encode_utf8(manifest@))) matches Ok(digests)
        ==> reads_in_order(read, oci_path, digests)
}

/// Of an index, only the manifest that it leads to is asked for, and of that
/// what [`manifest_asks`] says.
pub open spec fn index_asks<
    T: Fn(&str) -> Result<String, String>,
    F: Fn(&str) -> Result<Vec<u8>, String>,
>(read_text: T, read: F, oci_path: Seq<char>, index: String) -> bool {
    first_manifest(json::object_members(vstd::utf8::encode_utf8(index@))) matches Ok(digest) ==> {
        &&& may_ask(read_text, blob_place(oci_path, digest))
        &&& forall|manifest: String| #[trigger]
            answers(read_text, blob_place(oci_path, digest), Ok(manifest)) ==> manifest_asks(
                read,
                oci_path,
                manifest,
            )
    }
}

/// Of a layout, only the index is asked for, and of that what [`index_asks`]
/// says.
pub open spec fn layout_asks<
    T: Fn(&str) -> Result<String, String>,
    F: Fn(&str) -> Result<Vec<u8>, String>,
>(read_text: T, read: F, oci_path: Seq<char>) -> bool {
    &&& may_ask(read_text, path::path_join(oci_path, "index.json"@))
    &&& forall|index: String| #[trigger]
        answers(read_text, path::path_join(oci_path, "index.json"@), Ok(index)) ==> index_asks(
            read_text,
            read,
            oci_path,
            index,
        )
}

/// Reads the manifest that an index leads to, and its layers.
fn read_index(
    oci_path: &str,
    index: Result<String, String>,
    read_text: impl Fn(&str) -> Result<String, String>,
    read: impl Fn(&str) -> Result<Vec<u8>, String>,
) -> (r: Result<Vec<Vec<u8>>, String>)
    requires
        index matches Ok(index) ==> index_asks(read_text, read, oci_path@, index),
    ensures
        index_read(read_text, read, oci_path@, index, layers_view(r)),
{
    let index = match index {
        Ok(index) => index,
        Err(e) => {
            return Err(e);
        },
    };
    let digest = match manifest_digest(index.as_str()) {
        Ok(digest) => digest,
        Err(e) => {
            return Err(e);
        },
    };
    let at = blob_path(oci_path, digest.as_str());
    let answer = read_text(at.as_str());
    let ghost manifest = answer;
    assert(answers(read_text, blob_place(oci_path@, digest@), manifest));
    let r = match answer {
        Err(e) => Err(e),
        Ok(manifest) => match layer_digests(manifest.as_str()) {
            Err(e) => Err(e),
            Ok(digests) => read_layers(oci_path, &digests, read),
        },
    };
    assert(manifest_read(read, oci_path@, manifest, layers_view(r)));
    r
}

/// Pull `image_ref` into an OCI layout at `oci_path` and return the raw bytes
/// of each layer blob, in manifest order. Shared by every code path that
/// needs a fragment image's layer contents.
///
/// `copy` runs `skopeo` with the given arguments and says whether it
/// succeeded; it is run once. `read_text` and `read` read a file of the
/// layout, which they are asked for only after a copy that succeeded.
pub fn pull_layer_bytes(
    image_ref: &str,
    oci_path: &str,
    copy: impl FnOnce(&Vec<String>) -> Result<bool, String>,
    read_text: impl Fn(&str) -> Result<String, String>,
    read: impl Fn(&str) -> Result<Vec<u8>, String>,
) -> (r: Result<Vec<Vec<u8>>, String>)
    requires
        forall|args: &Vec<String>|
            text::texts(args@) == registry::copy_texts(image_ref@, oci_path@)
                ==> #[trigger] call_requires(copy, (args,)),
        forall|args: &Vec<String>|
            text::texts(args@) == registry::copy_texts(image_ref@, oci_path@)
                && #[trigger] call_ensures(copy, (args,), Ok(true)) ==> layout_asks(
                read_text,
                read,
                oci_path@,
            ),
    ensures
        exists|args: &Vec<String>, copied: Result<bool, String>|
            {
                &&& text::texts(args@) == registry::copy_texts(image_ref@, oci_path@)
                &&& #[trigger] call_ensures(copy, (args,), copied)
                &&& copy_read(read_text, read, image_ref@, oci_path@, copied, layers_view(r))
            },
{
    let args = copy_request(image_ref, oci_path);
    let answer = copy(&args);
    let ghost copied = answer;
    let r = match answer {
        Err(e) => {
            let mut out = "failed to run skopeo copy: ".to_owned();
            out.append(e.as_str());
            Err(out)
        },
        Ok(false) => {
            let mut out = "skopeo copy failed for ".to_owned();
            out.append(image_ref);
            Err(out)
        },
        Ok(true) => {
            let at = join_path(oci_path, "index.json");
            let answer = read_text(at.as_str());
            let ghost index = answer;
            assert(answers(read_text, path::path_join(oci_path@, "index.json"@), index));
            let r = read_index(oci_path, answer, read_text, read);
            assert(index_read(read_text, read, oci_path@, index, layers_view(r)));
            r
        },
    };
    assert(copy_read(read_text, read, image_ref@, oci_path@, copied, layers_view(r)));
    r
}

proof fn lemma_layers_from(
    digests: Seq<Option<Seq<char>>>,
    reads: Seq<Result<Seq<u8>, Seq<char>>>,
    i: int,
    layers: Seq<Seq<u8>>,
)
    requires
        0 <= i <= digests.len(),
        layers.len() == i,
    ensures
        layers_from(digests, reads, i, layers) is Ok <==> forall|k: int|
            i <= k < digests.len() ==> (#[trigger] digests[k]) is Some && reads[k] is Ok,
        layers_from(digests, reads, i, layers) matches Ok(all) ==> {
            &&& all.len() == digests.len()
            &&& forall|k: int| 0 <= k < i ==> #[trigger] all[k] == layers[k]
            &&& forall|k: int|
                i <= k < digests.len() ==> reads[k] == Ok::<Seq<u8>, Seq<char>>(#[trigger] all[k])
        },
    decreases digests.len() - i,
{
    if i < digests.len() {
        if let (Some(_), Ok(bytes)) = (digests[i], reads[i]) {
            let more = layers.push(bytes);
            lemma_layers_from(digests, reads, i + 1, more);
            if let Ok(all) = layers_from(digests, reads, i, layers) {
                assert(all[i] == more[i]);
                assert forall|k: int| 0 <= k < i implies #[trigger] all[k] == layers[k] by {
                    assert(all[k] == more[k]);
                }
            }
        } else {
            assert(!(digests[i] is Some && reads[i] is Ok));
        }
    }
}

/// An image has all the layers that its manifest lists, in that order and as
/// they were read, and fails exactly when one of them has no digest or cannot
/// be read.
pub proof fn law_every_listed_layer_is_read(
    digests: Seq<Option<Seq<char>>>,
    reads: Seq<Result<Seq<u8>, Seq<char>>>,
)
    ensures
        layers_from(digests, reads, 0, Seq::empty()) is Ok <==> forall|k: int|
            0 <= k < digests.len() ==> (#[trigger] digests[k]) is Some && reads[k] is Ok,
        layers_from(digests, reads, 0, Seq::empty()) matches Ok(all) ==> {
            &&& all.len() == digests.len()
            &&& forall|k: int|
                0 <= k < digests.len() ==> reads[k] == Ok::<Seq<u8>, Seq<char>>(#[trigger] all[k])
        },
{
    lemma_layers_from(digests, reads, 0, Seq::empty());
}

/// A manifest lists a layer for each item of its `layers` array, in order,
/// under the digest that the item names. An index leads to the manifest that
/// the first item of its `manifests` array names.
pub proof fn law_documents_are_followed_in_order(
    members: Seq<(Seq<char>, Seq<char>)>,
)
    ensures
        ({
            let items = |key: Seq<char>|
                match json::member(members, key) {
                    Some(value) => json::array_items(value),
                    None => None,
                };
            let digest = |item: Seq<char>|
                match json::object_members(vstd::utf8::encode_utf8(item)) {
                    Ok(Some(fields)) => json::string_member(fields, "digest"@),
                    _ => None,
                };
            &&& listed_layers(Ok(Some(members))) is Ok <==> items("layers"@) is Some
            &&& listed_layers(Ok(Some(members))) matches Ok(digests) ==> {
                &&& digests.len() == items("layers"@)->0.len()
                &&& forall|k: int|
                    0 <= k < digests.len() ==> #[trigger] digests[k] == digest(
                        items("layers"@)->0[k],
                    )
            }
            &&& first_manifest(Ok(Some(members))) is Ok <==> items("manifests"@) is Some
                && items("manifests"@)->0.len() > 0 && digest(items("manifests"@)->0[0]) is Some
            &&& first_manifest(Ok(Some(members))) matches Ok(found) ==> Some(found) == digest(
                items("manifests"@)->0[0],
            )
        }),
{
}

/// The blob of a digest lies below `blobs/`, in the directory of the digest's
/// algorithm and under its hash.
pub proof fn law_blob_lies_by_algorithm_and_hash(
    oci_path: Seq<char>,
    algorithm: Seq<char>,
    hash: Seq<char>,
)
    requires
        oci_path.len() > 0,
        oci_path.last() != '/',
        algorithm.len() > 0,
        algorithm[0] != '/',
        !algorithm.contains(':'),
        !hash.contains(':'),
    ensures
        blob_place(oci_path, algorithm + seq![':'] + hash) == oci_path + "/blobs/"@ + algorithm
            + seq!['/'] + hash,
{
    let digest = algorithm + seq![':'] + hash;
    let rel = text::replaced(digest, ':', '/');
    assert(rel =~= algorithm + seq!['/'] + hash) by {
        assert forall|i: int| 0 <= i < rel.len() implies #[trigger] rel[i] == (algorithm + seq![
            '/',
        ] + hash)[i] by {
            if i < algorithm.len() {
                assert(algorithm.contains(algorithm[i]));
            } else if i > algorithm.len() {
                assert(hash.contains(hash[i - algorithm.len() - 1]));
            }
        }
    }
    reveal_strlit("blobs");
    reveal_strlit("/blobs/");
    assert("/blobs/"@ =~= seq!['/'] + "blobs"@ + seq!['/']);
    let dir = path::path_join(oci_path, "blobs"@);
    assert(dir =~= oci_path + seq!['/'] + "blobs"@);
    assert(dir.last() == 's');
    assert(path::path_join(dir, rel) =~= oci_path + "/blobs/"@ + algorithm + seq!['/'] + hash);
}

/// Layers come out of a pull only where the copy succeeded, and they are then
/// those of the manifest that the layout's own `index.json` leads to: every
/// layer that this manifest lists, in order, each read from the place of its
/// digest.
pub proof fn law_pulled_layers_are_those_of_the_layout<
    T: Fn(&str) -> Result<String, String>,
    F: Fn(&str) -> Result<Vec<u8>, String>,
>(
    read_text: T,
    read: F,
    image_ref: Seq<char>,
    oci_path: Seq<char>,
    copied: Result<bool, String>,
    layers: Seq<Seq<u8>>,
)
    requires
        copy_read(read_text, read, image_ref, oci_path, copied, Ok(layers)),
    ensures
        copied == Ok::<bool, String>(true),
        exists|
            index: String,
            digest: Seq<char>,
            manifest: String,
            digests: Seq<Option<Seq<char>>>,
            reads: Seq<Result<Vec<u8>, String>>,
        |
            {
                &&& #[trigger] answers(
                    read_text,
                    path::path_join(oci_path, "index.json"@),
                    Ok::<String, String>(index),
                )
                &&& first_manifest(json::object_members(vstd::utf8::encode_utf8(index@))) == Ok::<
                    Seq<char>,
                    Seq<char>,
                >(digest)
                &&& #[trigger] answers(
                    read_text,
                    blob_place(oci_path, digest),
                    Ok::<String, String>(manifest),
                )
                &&& listed_layers(json::object_members(vstd::utf8::encode_utf8(manifest@))) == Ok::<
                    Seq<Option<Seq<char>>>,
                    Seq<char>,
                >(digests)
                &&& #[trigger] read_far_enough(digests, reads)
                &&& layers.len() == digests.len()
                &&& reads.len() == digests.len()
                &&& forall|k: int|
                    0 <= k < layers.len() ==> {
                        &&& digests[k] is Some
                        &&& reads[k] matches Ok(bytes)
                        &&& bytes@ == #[trigger] layers[k]
                        &&& answers(read, blob_place(oci_path, digests[k]->0), reads[k])
                    }
            },
{
    let result = Ok::<Seq<Seq<u8>>, Seq<char>>(layers);
    let index_answer = choose|index: Result<String, String>|
        {
            &&& answers(read_text, path::path_join(oci_path, "index.json"@), index)
            &&& #[trigger] index_read(read_text, read, oci_path, index, result)
        };
    let index = index_answer->Ok_0;
    assert(index_answer == Ok::<String, String>(index));
    let digest = first_manifest(json::object_members(vstd::utf8::encode_utf8(index@)))->Ok_0;
    let manifest_answer = choose|manifest: Result<String, String>|
        {
            &&& answers(read_text, blob_place(oci_path, digest), manifest)
            &&& #[trigger] manifest_read(read, oci_path, manifest, result)
        };
    let manifest = manifest_answer->Ok_0;
    assert(manifest_answer == Ok::<String, String>(manifest));
    let digests = listed_layers(
        json::object_members(vstd::utf8::encode_utf8(manifest@)),
    )->Ok_0;
    let reads = choose|reads: Seq<Result<Vec<u8>, String>>|
        {
            &&& #[trigger] read_far_enough(digests, reads)
            &&& forall|i: int|
                0 <= i < reads.len() ==> blob_answered(
                    read,
                    oci_path,
                    #[trigger] digests[i],
                    reads[i],
                )
            &&& result == layers_from(digests, blob_views(reads), 0, Seq::empty())
        };
    let views = blob_views(reads);
    law_every_listed_layer_is_read(digests, views);
    assert(reads.len() == digests.len()) by {
        if reads.len() < digests.len() {
            if digests[reads.len() as int] is Some {
                assert(reads.last() is Err);
                let last = reads.len() - 1;
                assert(views[last] is Err);
                assert(digests[last] is Some && views[last] is Ok);
            }
        }
    }
    assert forall|k: int| 0 <= k < layers.len() implies {
        &&& digests[k] is Some
        &&& reads[k] matches Ok(bytes)
        &&& bytes@ == #[trigger] layers[k]
        &&& answers(read, blob_place(oci_path, digests[k]->0), reads[k])
    } by {
        assert(views[k] == Ok::<Seq<u8>, Seq<char>>(layers[k]));
        assert(blob_answered(read, oci_path, digests[k], reads[k]));
    }
    assert(answers(
        read_text,
        path::path_join(oci_path, "index.json"@),
        Ok::<String, String>(index),
    ));
    assert(answers(read_text, blob_place(oci_path, digest), Ok::<String, String>(manifest)));
}

} // verus!
