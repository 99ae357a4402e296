//! The listing of a manifest: its fragments, one table row each.

use vstd::prelude::*;

use crate::loader;
use crate::loader::{LoadedFragment, LoadedView};
use crate::manifest;
use crate::manifest::Manifest;
use crate::mount;
use crate::mount::{targets, MountPoint, MOUNT_SECTION_NOTE};
use crate::text;
use crate::text::{decimal_text, join, pad_right, starts_with};

verus! {

/// The continuation line under a fragment's table row.
pub open spec fn mount_line_text(points: Seq<Seq<char>>) -> Option<Seq<char>> {
    if points.len() == 0 {
        None
    } else {
        Some("      mounts: "@ + text::joined(mount::target_texts(points), ", "@))
    }
}

/// The continuation line under a fragment's table row, naming what it mounts
/// into the package and hook steps. `None` when the fragment mounts nothing.
///
/// A line rather than a column: adding a column would rewrite the table for
/// every fragment, and most fragments carry no mounts at all.
pub fn mount_line(points: &[MountPoint]) -> (r: Option<String>)
    ensures
        text::opt_text(r) == mount_line_text(mount::point_paths(points@)),
{
    if points.len() == 0 {
        return None;
    }
    let mut out = "      mounts: ".to_owned();
    out.append(join(&targets(points), ", ").as_str());
    Some(out)
}

/// A digest without the name of its algorithm.
pub open spec fn digest_hash(digest: Seq<char>) -> Seq<char> {
    if "sha256:"@.is_prefix_of(digest) {
        digest.skip("sha256:"@.len() as int)
    } else {
        digest
    }
}

/// The first 12 bytes of a digest's hash are whole characters, as they are of
/// every digest in hexadecimal.
pub open spec fn can_be_shortened(digest: Seq<char>) -> bool {
    let bytes = vstd::utf8::encode_utf8(digest_hash(digest));
    bytes.len() <= 12 || vstd::utf8::is_char_boundary(bytes, 12)
}

/// The first 12 bytes of a hash, as text.
pub open spec fn short_hash(hash: Seq<char>) -> Seq<char> {
    let bytes = vstd::utf8::encode_utf8(hash);
    if bytes.len() <= 12 {
        hash
    } else {
        vstd::utf8::decode_utf8(bytes.subrange(0, 12))
    }
}

/// The digest column's short form.
pub open spec fn short_digest_text(resolved_digest: Option<Seq<char>>) -> Seq<char> {
    match resolved_digest {
        Some(digest) => "sha256:"@ + short_hash(digest_hash(digest)) + "..."@,
        None => "(local)"@,
    }
}

/// The digest column's short form: the resolved digest truncated to its
/// first 12 hex characters, or `(local)` for a fragment that has none.
pub fn digest_short(resolved_digest: Option<&str>) -> (out: String)
    requires
        resolved_digest matches Some(digest) ==> can_be_shortened(digest@),
    ensures
        out@ == short_digest_text(
            match resolved_digest {
                Some(digest) => Some(digest@),
                None => None,
            },
        ),
{
    match resolved_digest {
        None => "(local)".to_owned(),
        Some(digest) => {
            proof {
                reveal_strlit("sha256:");
            }
            let hash = if starts_with(digest, "sha256:") {
                let rest = digest.substring_char(7, digest.unicode_len());
                assert(rest@ =~= digest_hash(digest@));
                rest
            } else {
                digest
            };
            let mut out = "sha256:".to_owned();
            if hash.as_bytes().len() <= 12 {
                out.append(hash);
            } else {
                let (short, _) = hash.split_at(12);
                proof {
                    broadcast use vstd::utf8::encode_utf8_decode_utf8;

                    assert(short@ == vstd::utf8::decode_utf8(vstd::utf8::encode_utf8(short@)));
                }
                out.append(short);
            }
            out.append("...");
            out
        },
    }
}

/// A fragment's table row, wide when the listing carries digests and narrow
/// when it does not. The name is written as it is; version and digest fill
/// their columns.
pub open spec fn row_text(
    fragment: LoadedView,
    packages: Seq<char>,
    has_digests: bool,
) -> Seq<char> {
    let head = "  "@ + fragment.fragment.name + " "@ + text::padded(
        fragment.fragment.version,
        10,
    );
    if has_digests {
        head + " "@ + text::padded(short_digest_text(fragment.resolved_digest), 20) + " "@
            + packages
    } else {
        head + " "@ + packages
    }
}

/// The lines one fragment contributes to the listing.
pub open spec fn row_lines(
    fragment: LoadedView,
    packages: Seq<char>,
    has_digests: bool,
) -> Seq<Seq<char>> {
    let row = row_text(fragment, packages, has_digests);
    match mount_line_text(fragment.mount_points) {
        Some(line) => seq![row, line],
        None => seq![row],
    }
}

/// The digest that a fragment carries, if it carries one, can be shortened.
pub open spec fn digest_fits(fragment: LoadedView) -> bool {
    fragment.resolved_digest matches Some(digest) ==> can_be_shortened(digest)
}

/// The lines one fragment contributes to the listing: its table row, wide
/// when the listing carries digests and narrow when it does not, then its
/// mount line when it has mounts.
///
/// Both row forms are built here so the mount line can be appended once,
/// after whichever was chosen.
pub fn fragment_lines(
    loaded: &LoadedFragment,
    packages: &str,
    has_digests: bool,
) -> (lines: Vec<String>)
    requires
        has_digests ==> digest_fits(loaded@),
    ensures
        text::texts(lines@) == row_lines(loaded@, packages@, has_digests),
{
    let mut row = "  ".to_owned();
    row.append(loaded.fragment.name.as_str());
    row.append(" ");
    row.append(pad_right(loaded.fragment.version.as_str(), 10).as_str());
    if has_digests {
        let digest = match &loaded.resolved_digest {
            Some(digest) => digest_short(Some(digest.as_str())),
            None => digest_short(None),
        };
        row.append(" ");
        row.append(pad_right(digest.as_str(), 20).as_str());
    }
    row.append(" ");
    row.append(packages);
    let ghost shown = row@;
    let mut lines: Vec<String> = Vec::new();
    lines.push(row);
    if let Some(line) = mount_line(&loaded.mount_points) {
        let ghost added = line@;
        lines.push(line);
        assert(text::texts(lines@) =~= seq![shown, added]);
    } else {
        assert(text::texts(lines@) =~= seq![shown]);
    }
    lines
}

/// Some fragment of the listing mounts something.
pub open spec fn anything_mounts(fragments: Seq<LoadedView>) -> bool {
    exists|i: int| 0 <= i < fragments.len() && (#[trigger] fragments[i]).mount_points.len() > 0
}

/// The note the listing closes with, or `None` when nothing in it mounts:
/// the note explains a line the reader just saw, and means nothing without
/// one. Reading the mounts from the annotation is what lets this run without
/// pulling layers.
///
/// Takes the whole listing and returns a single value, so the note cannot
/// become per-fragment.
pub fn note_line(fragments: &[LoadedFragment]) -> (r: Option<&'static str>)
    ensures
        match r {
            Some(note) => Some(note@),
            None => None,
        } == if anything_mounts(loader::loaded_views(fragments@)) {
            Some(MOUNT_SECTION_NOTE@)
        } else {
            None
        },
{
    let ghost views = loader::loaded_views(fragments@);
    for i in 0..fragments.len()
        invariant
            views == loader::loaded_views(fragments@),
            forall|j: int| 0 <= j < i ==> (#[trigger] views[j]).mount_points.len() == 0,
    {
        assert(views[i as int].mount_points.len() == fragments@[i as int].mount_points@.len());
        if fragments[i].mount_points.len() > 0 {
            return Some(MOUNT_SECTION_NOTE);
        }
    }
    None
}

/// Some fragment of the listing carries a digest.
pub open spec fn any_digest(fragments: Seq<LoadedView>) -> bool {
    exists|i: int| 0 <= i < fragments.len() && (#[trigger] fragments[i]).resolved_digest is Some
}

/// Whether some fragment of the listing carries a digest.
fn carries_digests(fragments: &[LoadedFragment]) -> (r: bool)
    ensures
        r == any_digest(loader::loaded_views(fragments@)),
{
    let ghost views = loader::loaded_views(fragments@);
    for i in 0..fragments.len()
        invariant
            views == loader::loaded_views(fragments@),
            forall|j: int| 0 <= j < i ==> (#[trigger] views[j]).resolved_digest is None,
    {
        assert(views[i as int].resolved_digest == text::opt_text(
            fragments@[i as int].resolved_digest,
        ));
        if fragments[i].resolved_digest.is_some() {
            return true;
        }
    }
    false
}

/// The packages column of a manifest entry.
pub open spec fn packages_text(packages: Seq<Seq<char>>) -> Seq<char> {
    if packages.len() == 0 {
        "\u{2014}"@
    } else {
        text::joined(packages, ", "@)
    }
}

/// The packages of each entry of a manifest.
pub open spec fn entry_packages(manifest: Manifest) -> Seq<Seq<Seq<char>>> {
    manifest.fragments@.map_values(|f: manifest::ManifestFragment| text::texts(f.packages@))
}

/// The rows of a list of fragments, in order.
pub open spec fn table_lines(
    packages: Seq<Seq<Seq<char>>>,
    fragments: Seq<LoadedView>,
    has_digests: bool,
) -> Seq<Seq<char>>
    decreases fragments.len(),
{
    if fragments.len() == 0 {
        Seq::empty()
    } else {
        let last = fragments.last();
        table_lines(packages, fragments.drop_last(), has_digests) + row_lines(
            last,
            packages_text(packages[last.manifest_index]),
            has_digests,
        )
    }
}

/// What stands above the table's rows.
pub open spec fn listing_head(
    source_path: Seq<char>,
    base: Seq<char>,
    has_digests: bool,
) -> Seq<Seq<char>> {
    let columns = "  "@ + text::padded("NAME"@, 20) + " "@ + text::padded("VERSION"@, 10);
    seq![
        "Manifest: "@ + source_path,
        "Base:     "@ + base,
        Seq::empty(),
        if has_digests {
            columns + " "@ + text::padded("DIGEST"@, 20) + " PACKAGES"@
        } else {
            columns + " PACKAGES"@
        },
    ]
}

/// The listing of a manifest, line by line.
pub open spec fn listing(manifest: Manifest, fragments: Seq<LoadedView>) -> Seq<Seq<char>> {
    let has_digests = any_digest(fragments);
    let body = listing_head(manifest.source_path@, manifest.base@, has_digests) + table_lines(
        entry_packages(manifest),
        fragments,
        has_digests,
    ) + seq![Seq::empty(), text::decimal(fragments.len()) + " fragments"@];
    if anything_mounts(fragments) {
        body.push(MOUNT_SECTION_NOTE@)
    } else {
        body
    }
}

/// Every fragment has an entry in the manifest, and a digest that can be
/// shortened if it has one.
pub open spec fn listable(manifest: Manifest, fragments: Seq<LoadedView>) -> bool {
    forall|i: int|
        0 <= i < fragments.len() ==> {
            &&& 0 <= (#[trigger] fragments[i]).manifest_index < manifest.fragments@.len()
            &&& digest_fits(fragments[i])
        }
}

/// What stands above the table's rows.
fn head_lines(manifest: &Manifest, has_digests: bool) -> (lines: Vec<String>)
    ensures
        text::texts(lines@) == listing_head(manifest.source_path@, manifest.base@, has_digests),
{
    let mut source = "Manifest: ".to_owned();
    source.append(manifest.source_path.as_str());
    let mut base = "Base:     ".to_owned();
    base.append(manifest.base.as_str());
    let mut columns = "  ".to_owned();
    columns.append(pad_right("NAME", 20).as_str());
    columns.append(" ");
    columns.append(pad_right("VERSION", 10).as_str());
    if has_digests {
        columns.append(" ");
        columns.append(pad_right("DIGEST", 20).as_str());
    }
    columns.append(" PACKAGES");
    let lines = vec![source, base, String::new(), columns];
    assert(text::texts(lines@) =~= listing_head(
        manifest.source_path@,
        manifest.base@,
        has_digests,
    ));
    lines
}

/// List the fragments of a manifest, in manifest order, line by line.
pub fn run_list(manifest: &Manifest, fragments: &[LoadedFragment]) -> (lines: Vec<String>)
    requires
        listable(*manifest, loader::loaded_views(fragments@)),
    ensures
        text::texts(lines@) == listing(*manifest, loader::loaded_views(fragments@)),
{
    let ghost views = loader::loaded_views(fragments@);
    let ghost packages = entry_packages(*manifest);
    let has_digests = carries_digests(fragments);
    let mut lines = head_lines(manifest, has_digests);
    let ghost head = text::texts(lines@);
    assert(head + table_lines(packages, views.take(0), has_digests) =~= head);
    for i in 0..fragments.len()
        invariant
            views == loader::loaded_views(fragments@),
            packages == entry_packages(*manifest),
            listable(*manifest, views),
            text::texts(lines@) == head + table_lines(
                packages,
                views.take(i as int),
                has_digests,
            ),
    {
        let ghost before = text::texts(lines@);
        let loaded = &fragments[i];
        assert(views[i as int] == loaded@);
        assert(views.take(i + 1).drop_last() =~= views.take(i as int));
        assert(views.take(i + 1).last() == loaded@);
        let entry = &manifest.fragments[loaded.manifest_index];
        assert(packages[loaded.manifest_index as int] == text::texts(entry.packages@));
        let shown = if entry.packages.len() == 0 {
            "\u{2014}".to_owned()
        } else {
            join(&entry.packages, ", ")
        };
        let mut rows = fragment_lines(loaded, shown.as_str(), has_digests);
        let ghost added = text::texts(rows@);
        lines.append(&mut rows);
        assert(text::texts(lines@) =~= before + added);
        assert(text::texts(lines@) =~= head + table_lines(
            packages,
            views.take(i + 1),
            has_digests,
        ));
    }
    assert(views.take(views.len() as int) =~= views);
    let ghost body = text::texts(lines@);
    let mut count = decimal_text(fragments.len() as u64);
    count.append(" fragments");
    let ghost counted = count@;
    lines.push(String::new());
    lines.push(count);
    assert(text::texts(lines@) =~= body + seq![Seq::empty(), counted]);
    if let Some(note) = note_line(fragments) {
        let ghost before = text::texts(lines@);
        lines.push(note.to_owned());
        assert(text::texts(lines@) =~= before.push(note@));
    }
    lines
}

/// A fragment's mount line follows its row in both table widths: whether the
/// listing carries digests changes the row alone.
pub proof fn law_mount_line_follows_the_row(
    fragment: LoadedView,
    packages: Seq<char>,
    has_digests: bool,
)
    ensures
        row_lines(fragment, packages, has_digests)[0] == row_text(fragment, packages, has_digests),
        row_lines(fragment, packages, has_digests).skip(1) == row_lines(
            fragment,
            packages,
            !has_digests,
        ).skip(1),
        row_lines(fragment, packages, has_digests).len() == if fragment.mount_points.len() > 0 {
            2nat
        } else {
            1nat
        },
{
    let a = row_lines(fragment, packages, has_digests);
    let b = row_lines(fragment, packages, !has_digests);
    assert(a.skip(1) =~= b.skip(1));
}

/// The fragments that mount something.
pub open spec fn mounting(fragments: Seq<LoadedFragment>) -> Seq<LoadedFragment> {
    fragments.filter(|f: LoadedFragment| f.mount_points@.len() > 0)
}

/// One more fragment adds itself to those that mount something, or nothing.
proof fn lemma_mounting_push(fragments: Seq<LoadedFragment>, f: LoadedFragment)
    ensures
        mounting(fragments.push(f)) == if f.mount_points@.len() > 0 {
            mounting(fragments).push(f)
        } else {
            mounting(fragments)
        },
{
    fragments.lemma_filter_push(f, |f: LoadedFragment| f.mount_points@.len() > 0);
}

/// The rows of a list of fragments take a line each, and another where there
/// are mounts.
proof fn lemma_table(
    packages: Seq<Seq<Seq<char>>>,
    fragments: Seq<LoadedFragment>,
    has_digests: bool,
)
    ensures
        table_lines(packages, loader::loaded_views(fragments), has_digests).len()
            == fragments.len() + mounting(fragments).len(),
        forall|i: int|
            0 <= i < fragments.len() ==> {
                let at = i + mounting(fragments.take(i)).len();
                let f = (#[trigger] fragments[i])@;
                let shown = row_lines(f, packages_text(packages[f.manifest_index]), has_digests);
                &&& at + shown.len() <= table_lines(
                    packages,
                    loader::loaded_views(fragments),
                    has_digests,
                ).len()
                &&& forall|j: int|
                    0 <= j < shown.len() ==> #[trigger] table_lines(
                        packages,
                        loader::loaded_views(fragments),
                        has_digests,
                    )[at + j] == shown[j]
            },
    decreases fragments.len(),
{
    let views = loader::loaded_views(fragments);
    let table = table_lines(packages, views, has_digests);
    if fragments.len() == 0 {
        reveal(Seq::filter);
    } else {
        let front = fragments.drop_last();
        let last = fragments.last();
        lemma_table(packages, front, has_digests);
        assert(views.drop_last() =~= loader::loaded_views(front));
        assert(views.last() == last@);
        assert(front.push(last) =~= fragments);
        lemma_mounting_push(front, last);
        let before = table_lines(packages, views.drop_last(), has_digests);
        let added = row_lines(last@, packages_text(packages[last@.manifest_index]), has_digests);
        assert(last@.mount_points.len() == last.mount_points@.len());
        assert(table == before + added);
        assert forall|i: int| 0 <= i < fragments.len() implies {
            let at = i + mounting(fragments.take(i)).len();
            let f = (#[trigger] fragments[i])@;
            let shown = row_lines(f, packages_text(packages[f.manifest_index]), has_digests);
            &&& at + shown.len() <= table.len()
            &&& forall|j: int| 0 <= j < shown.len() ==> #[trigger] table[at + j] == shown[j]
        } by {
            if i < front.len() {
                assert(front[i] == fragments[i]);
                assert(front.take(i) =~= fragments.take(i));
                let at = i + mounting(fragments.take(i)).len();
                let f = fragments[i]@;
                let shown = row_lines(f, packages_text(packages[f.manifest_index]), has_digests);
                assert forall|j: int| 0 <= j < shown.len() implies #[trigger] table[at + j]
                    == shown[j] by {
                    assert(table[at + j] == before[at + j]);
                }
            } else {
                assert(fragments.take(i) =~= front);
            }
        }
    }
}

/// Some fragment mounts something exactly when the list of those that do is
/// not empty.
proof fn lemma_anything_mounts(fragments: Seq<LoadedFragment>)
    ensures
        anything_mounts(loader::loaded_views(fragments)) <==> mounting(fragments).len() > 0,
    decreases fragments.len(),
{
    let views = loader::loaded_views(fragments);
    if fragments.len() == 0 {
        reveal(Seq::filter);
    } else {
        let front = fragments.drop_last();
        let front_views = loader::loaded_views(front);
        lemma_anything_mounts(front);
        lemma_mounting_push(front, fragments.last());
        assert(front.push(fragments.last()) =~= fragments);
        assert(views.last().mount_points.len() == fragments.last().mount_points@.len());
        if anything_mounts(front_views) {
            let i = choose|i: int|
                0 <= i < front_views.len() && (#[trigger] front_views[i]).mount_points.len() > 0;
            assert(views[i] == front_views[i]);
        }
        if anything_mounts(views) && fragments.last().mount_points@.len() == 0 {
            let i = choose|i: int|
                0 <= i < views.len() && (#[trigger] views[i]).mount_points.len() > 0;
            assert(i < front.len());
            assert(views[i] == front_views[i]);
        }
    }
}

/// A listing has a head of four lines that names the manifest and the base, a
/// line for every fragment and another for each that mounts something, and a
/// foot that counts the fragments, with the note on mounts behind it exactly
/// when something mounts.
pub proof fn law_listing_has_a_line_for_everything(
    manifest: Manifest,
    fragments: Seq<LoadedFragment>,
    lines: Seq<String>,
)
    requires
        text::texts(lines) == listing(manifest, loader::loaded_views(fragments)),
    ensures
        lines.len() == 6 + fragments.len() + mounting(fragments).len() + if mounting(
            fragments,
        ).len() > 0 {
            1int
        } else {
            0
        },
        lines[0]@ == "Manifest: "@ + manifest.source_path@,
        lines[1]@ == "Base:     "@ + manifest.base@,
        lines[2]@.len() == 0,
        lines[3]@ == "  "@ + text::padded("NAME"@, 20) + " "@ + text::padded("VERSION"@, 10)
            + if exists|i: int| 0 <= i < fragments.len() && (#[trigger] fragments[i]).resolved_digest is Some {
            " "@ + text::padded("DIGEST"@, 20)
        } else {
            Seq::empty()
        } + " PACKAGES"@,
        lines[4int + fragments.len() + mounting(fragments).len()]@.len() == 0,
        lines[5int + fragments.len() + mounting(fragments).len()]@ == text::decimal(fragments.len())
            + " fragments"@,
        mounting(fragments).len() > 0 ==> lines.last()@
            == "mounted during package and hook steps, never committed by the builder"@,
{
    let views = loader::loaded_views(fragments);
    let shown = listing(manifest, views);
    let hd = any_digest(views);
    lemma_table(entry_packages(manifest), fragments, hd);
    lemma_anything_mounts(fragments);
    lemma_any_digest(fragments);
    assert(lines.len() == shown.len());
    assert forall|k: int| 0 <= k < lines.len() implies (#[trigger] lines[k])@ == shown[k] by {
        assert(text::texts(lines)[k] == lines[k]@);
    }
    let head = listing_head(manifest.source_path@, manifest.base@, hd);
    assert(shown[0] == head[0] && shown[1] == head[1] && shown[2] == head[2] && shown[3]
        == head[3]);
    let columns = "  "@ + text::padded("NAME"@, 20) + " "@ + text::padded("VERSION"@, 10);
    if hd {
        assert(head[3] =~= columns + (" "@ + text::padded("DIGEST"@, 20)) + " PACKAGES"@);
    } else {
        assert(head[3] =~= columns + Seq::<char>::empty() + " PACKAGES"@);
    }
}

/// Whether a fragment of the listing carries a digest, said of the fragments.
proof fn lemma_any_digest(fragments: Seq<LoadedFragment>)
    ensures
        any_digest(loader::loaded_views(fragments)) <==> exists|i: int|
            0 <= i < fragments.len() && (#[trigger] fragments[i]).resolved_digest is Some,
{
    let views = loader::loaded_views(fragments);
    if any_digest(views) {
        let i = choose|i: int|
            0 <= i < views.len() && (#[trigger] views[i]).resolved_digest is Some;
        assert(fragments[i].resolved_digest is Some);
    }
    if exists|i: int|
        0 <= i < fragments.len() && (#[trigger] fragments[i]).resolved_digest is Some {
        let i = choose|i: int|
            0 <= i < fragments.len() && (#[trigger] fragments[i]).resolved_digest is Some;
        assert(views[i].resolved_digest is Some);
    }
}

/// The row of a fragment stands behind those of the fragments before it: its
/// name, its version, its digest where the listing carries digests, and then
/// all the packages of its manifest entry, in order and with nothing but
/// commas between them. What it mounts stands in the line below, all of it.
pub proof fn law_row_names_every_package_and_mount(
    manifest: Manifest,
    fragments: Seq<LoadedFragment>,
    lines: Seq<String>,
    i: int,
)
    requires
        listable(manifest, loader::loaded_views(fragments)),
        text::texts(lines) == listing(manifest, loader::loaded_views(fragments)),
        0 <= i < fragments.len(),
    ensures
        ({
            let f = fragments[i];
            let at = 4 + i + mounting(fragments.take(i)).len();
            let row = lines[at]@;
            let packages = manifest.fragments@[f.manifest_index as int].packages@;
            let digest = if exists|k: int|
                0 <= k < fragments.len() && (#[trigger] fragments[k]).resolved_digest is Some {
                " "@ + text::padded(short_digest_text(text::opt_text(f.resolved_digest)), 20)
            } else {
                Seq::empty()
            };
            let column = if packages.len() == 0 {
                "\u{2014}"@
            } else {
                Seq::new(
                    packages.len(),
                    |k: int|
                        if k == 0 {
                            packages[k]@
                        } else {
                            ", "@ + packages[k]@
                        },
                ).flatten()
            };
            &&& row == "  "@ + f.fragment.name@ + " "@ + text::padded(f.fragment.version@, 10)
                + digest + " "@ + column
            &&& forall|k: int|
                0 <= k < packages.len() ==> exists|p: int|
                    0 <= p <= row.len() && (#[trigger] packages[k])@.is_prefix_of(
                        #[trigger] row.skip(p),
                    )
            &&& f.mount_points@.len() > 0 ==> {
                &&& lines[at + 1]@ == "      mounts: "@ + Seq::new(
                    f.mount_points@.len(),
                    |k: int|
                        if k == 0 {
                            "/"@ + f.mount_points@[k]@
                        } else {
                            ", "@ + ("/"@ + f.mount_points@[k]@)
                        },
                ).flatten()
            }
        }),
{
    let views = loader::loaded_views(fragments);
    let shown = listing(manifest, views);
    let hd = any_digest(views);
    let all_packages = entry_packages(manifest);
    let f = fragments[i];
    let at = 4 + i + mounting(fragments.take(i)).len();
    lemma_table(all_packages, fragments, hd);
    lemma_any_digest(fragments);
    assert(views[i] == f@);
    assert(lines.len() == text::texts(lines).len());
    assert forall|k: int| 0 <= k < lines.len() implies (#[trigger] lines[k])@ == shown[k] by {
        assert(text::texts(lines)[k] == lines[k]@);
    }
    let head = listing_head(manifest.source_path@, manifest.base@, hd);
    let table = table_lines(all_packages, views, hd);
    let packages = manifest.fragments@[f.manifest_index as int].packages@;
    let named = text::texts(packages);
    assert(all_packages[f@.manifest_index] == named);
    let rows = row_lines(f@, packages_text(named), hd);
    assert(rows.len() >= 1);
    assert(table[at - 4 + 0] == rows[0]);
    assert(head.len() == 4);
    assert(shown[at] == table[at - 4]);
    let row = lines[at]@;
    assert(row == row_text(f@, packages_text(named), hd));
    let digest = if hd {
        " "@ + text::padded(short_digest_text(text::opt_text(f.resolved_digest)), 20)
    } else {
        Seq::empty()
    };
    let column = packages_text(named);
    assert(row =~= "  "@ + f.fragment.name@ + " "@ + text::padded(f.fragment.version@, 10) + digest
        + " "@ + column);
    if packages.len() > 0 {
        text::law_joining_keeps_every_part(named, ", "@);
        assert(Seq::new(
            named.len(),
            |k: int|
                if k == 0 {
                    named[k]
                } else {
                    ", "@ + named[k]
                },
        ) =~= Seq::new(
            packages.len(),
            |k: int|
                if k == 0 {
                    packages[k]@
                } else {
                    ", "@ + packages[k]@
                },
        ));
        let lead = row.len() - column.len();
        assert forall|k: int| 0 <= k < packages.len() implies exists|p: int|
            0 <= p <= row.len() && (#[trigger] packages[k])@.is_prefix_of(
                #[trigger] row.skip(p),
            ) by {
            assert(named[k] == packages[k]@);
            let j = choose|j: int|
                0 <= j <= column.len() && named[k].is_prefix_of(#[trigger] column.skip(j));
            assert(row.skip(lead + j) =~= column.skip(j));
        }
    }
    if f.mount_points@.len() > 0 {
        assert(f@.mount_points.len() == f.mount_points@.len());
        assert(rows.len() == 2);
        assert(table[at - 4 + 1] == rows[1]);
        assert(shown[at + 1] == table[at - 4 + 1]);
        let marks = mount::target_texts(f@.mount_points);
        text::law_joining_keeps_every_part(marks, ", "@);
        assert(Seq::new(
            marks.len(),
            |k: int|
                if k == 0 {
                    marks[k]
                } else {
                    ", "@ + marks[k]
                },
        ) =~= Seq::new(
            f.mount_points@.len(),
            |k: int|
                if k == 0 {
                    "/"@ + f.mount_points@[k]@
                } else {
                    ", "@ + ("/"@ + f.mount_points@[k]@)
                },
        ));
    }
}

/// The first 12 bytes of a hash that can be cut there are its first
/// characters.
proof fn lemma_cut(hash: Seq<char>)
    requires
        vstd::utf8::encode_utf8(hash).len() > 12,
        vstd::utf8::is_char_boundary(vstd::utf8::encode_utf8(hash), 12),
    ensures
        short_hash(hash).is_prefix_of(hash),
        vstd::utf8::encode_utf8(short_hash(hash)).len() == 12,
{
    let bytes = vstd::utf8::encode_utf8(hash);
    let front = bytes.subrange(0, 12);
    broadcast use {vstd::utf8::encode_utf8_valid_utf8, vstd::utf8::encode_utf8_decode_utf8};

    vstd::utf8::valid_utf8_split(bytes, 12);
    vstd::utf8::decode_utf8_split(bytes, 12);
    vstd::utf8::decode_utf8_encode_utf8(front);
    assert(short_hash(hash) =~= hash.subrange(0, short_hash(hash).len() as int));
}

/// The short form of a digest keeps its algorithm and the first 12 bytes of
/// its hash, all of it where it is no longer; without a digest the fragment
/// is local. A digest that is written without its algorithm gets it.
pub proof fn law_short_digest_is_the_front_of_the_hash(hash: Seq<char>)
    requires
        !"sha256:"@.is_prefix_of(hash),
        can_be_shortened(hash),
    ensures
        short_digest_text(None) == "(local)"@,
        short_digest_text(Some("sha256:"@ + hash)) == short_digest_text(Some(hash)),
        exists|front: Seq<char>|
            {
                &&& #[trigger] front.is_prefix_of(hash)
                &&& short_digest_text(Some(hash)) == "sha256:"@ + front + "..."@
                &&& vstd::utf8::encode_utf8(front).len() == if vstd::utf8::encode_utf8(hash).len()
                    < 12 {
                    vstd::utf8::encode_utf8(hash).len()
                } else {
                    12
                }
            },
{
    let named = "sha256:"@ + hash;
    assert(named.skip("sha256:"@.len() as int) =~= hash);
    assert("sha256:"@ =~= named.subrange(0, "sha256:"@.len() as int));
    assert(digest_hash(named) == hash);
    assert(digest_hash(hash) == hash);
    let bytes = vstd::utf8::encode_utf8(hash);
    if bytes.len() <= 12 {
        assert(hash =~= hash.subrange(0, hash.len() as int));
        assert(hash.is_prefix_of(hash));
    } else {
        lemma_cut(hash);
        assert(short_hash(hash).is_prefix_of(hash));
    }
}

} // verus!
