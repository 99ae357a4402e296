//! MachineOSConfig manifests for OpenShift on-cluster builds.

use vstd::prelude::*;

use crate::text;
use crate::text::{chars_of, decimal_text, lines};

verus! {

/// Maximum characters allowed in the MachineOSConfig containerFile content.
/// The MCO API rejects payloads exceeding this limit.
pub const OCP_CONTAINERFILE_LIMIT: usize = 4096;

/// What is said of a Containerfile of `size` characters that is too large.
pub open spec fn oversized_text(size: nat) -> Seq<char> {
    "OCP Containerfile exceeds "@ + text::decimal(OCP_CONTAINERFILE_LIMIT as nat)
        + " character limit ("@ + text::decimal(size)
        + " chars): reduce fragments or packages to fit within MachineOSConfig API limits"@
}

/// A line of the Containerfile as the manifest holds it: indented by eight
/// spaces, unless it is empty.
pub open spec fn indented(line: Seq<char>) -> Seq<char> {
    if line.len() == 0 {
        line
    } else {
        "        "@ + line
    }
}

/// The lines of the Containerfile as the manifest holds them.
pub open spec fn content_text(lines: Seq<Seq<char>>) -> Seq<char>
    decreases lines.len(),
{
    if lines.len() == 0 {
        Seq::empty()
    } else {
        content_text(lines.drop_last()) + indented(lines.last()) + "\n"@
    }
}

/// What stands before the Containerfile. Both names are the pool's.
pub open spec fn head_text(pool: Seq<char>) -> Seq<char> {
    "apiVersion: machineconfiguration.openshift.io/v1\nkind: MachineOSConfig\nmetadata:\n  name: "@
        + pool + "\nspec:\n  machineConfigPool:\n    name: "@ + pool
        + "\n  containerFile:\n    - containerfileArch: NoArch\n      content: |\n"@
}

/// What stands behind the Containerfile.
pub open spec fn tail_text() -> Seq<char> {
    "  imageBuilder:\n    imageBuilderType: Job\n  renderedImagePushSecret:\n    name: REPLACE_WITH_SECRET_NAME  # e.g., builder-dockercfg-xxxxx\n  renderedImagePushSpec: image-registry.openshift-image-registry.svc:5000/openshift-machine-config-operator/os-images:latest\n"@
}

/// The manifest for a Containerfile and a pool.
pub open spec fn config_text(containerfile: Seq<char>, pool: Seq<char>) -> Seq<char> {
    head_text(pool) + content_text(text::lines_of(containerfile)) + tail_text()
}

/// `r` is the manifest for a Containerfile and a pool, or what is said of a
/// Containerfile that is too large.
pub open spec fn config_result(
    containerfile: Seq<char>,
    pool: Seq<char>,
    r: Result<String, String>,
) -> bool {
    text::result_text(r) == if containerfile.len() > OCP_CONTAINERFILE_LIMIT {
        Err::<Seq<char>, Seq<char>>(oversized_text(containerfile.len()))
    } else {
        Ok(config_text(containerfile, pool))
    }
}

/// Generate a MachineOSConfig YAML manifest that wraps an OCP Containerfile
/// for use with the Machine Config Operator's on-cluster build system.
pub fn generate_machine_os_config(containerfile: &str, pool: &str) -> (r: Result<String, String>)
    ensures
        config_result(containerfile@, pool@, r),
{
    let size: usize = chars_of(containerfile).len();
    if size > OCP_CONTAINERFILE_LIMIT {
        let mut out = "OCP Containerfile exceeds ".to_owned();
        out.append(decimal_text(OCP_CONTAINERFILE_LIMIT as u64).as_str());
        out.append(" character limit (");
        out.append(decimal_text(size as u64).as_str());
        out.append(" chars): reduce fragments or packages to fit within MachineOSConfig API limits");
        return Err(out);
    }
    let mut out = "apiVersion: machineconfiguration.openshift.io/v1\nkind: MachineOSConfig\nmetadata:\n  name: ".to_owned();
    out.append(pool);
    out.append("\nspec:\n  machineConfigPool:\n    name: ");
    out.append(pool);
    out.append("\n  containerFile:\n    - containerfileArch: NoArch\n      content: |\n");
    let content = lines(containerfile);
    let ghost all = text::texts(content@);
    assert(out@ + content_text(all.take(0)) =~= out@);
    for i in 0..content.len()
        invariant
            all == text::texts(content@),
            out@ == head_text(pool@) + content_text(all.take(i as int)),
    {
        let ghost before = out@;
        let ghost line = all[i as int];
        assert(all.take(i + 1).drop_last() =~= all.take(i as int));
        assert(all.take(i + 1).last() == line);
        if !content[i].as_str().is_empty() {
            out.append("        ");
            out.append(content[i].as_str());
        } else {
            assert(before + line =~= before);
        }
        out.append("\n");
        assert(out@ =~= before + indented(line) + "\n"@);
        assert(out@ =~= head_text(pool@) + content_text(all.take(i + 1)));
    }
    assert(all.take(all.len() as int) =~= all);
    out.append("  imageBuilder:\n    imageBuilderType: Job\n  renderedImagePushSecret:\n    name: REPLACE_WITH_SECRET_NAME  # e.g., builder-dockercfg-xxxxx\n  renderedImagePushSpec: image-registry.openshift-image-registry.svc:5000/openshift-machine-config-operator/os-images:latest\n");
    Ok(out)
}

/// A line, its end, and what follows, are read back as that line and the
/// lines of what follows.
proof fn lemma_first_line(line: Seq<char>, rest: Seq<char>)
    requires
        !line.contains('\n'),
        line.len() == 0 || line.last() != '\r',
    ensures
        text::lines_of(line + seq!['\n'] + rest) == seq![line] + text::lines_of(rest),
{
    let s = line + seq!['\n'] + rest;
    let k = line.len() as int;
    assert forall|j: int| 0 <= j < k implies s[j] != '\n' by {
        assert(s[j] == line[j]);
        if line[j] == '\n' {
            assert(line.contains('\n'));
        }
    }
    text::lemma_find_from_is(s, '\n', 0, k);
    assert(s.take(k) =~= line);
    assert(s.skip(k + 1) =~= rest);
    assert(text::without_cr(line) == line);
}

/// The first line of the content stands before the others.
proof fn lemma_content_cons(lines: Seq<Seq<char>>)
    requires
        lines.len() > 0,
    ensures
        content_text(lines) == indented(lines[0]) + "\n"@ + content_text(lines.skip(1)),
    decreases lines.len(),
{
    if lines.len() == 1 {
        assert(lines.drop_last() =~= Seq::<Seq<char>>::empty());
        assert(lines.skip(1) =~= Seq::<Seq<char>>::empty());
        assert(content_text(lines) =~= indented(lines[0]) + "\n"@ + content_text(lines.skip(1)));
    } else {
        let front = lines.drop_last();
        lemma_content_cons(front);
        assert(front.skip(1) =~= lines.skip(1).drop_last());
        assert(lines.skip(1).last() == lines.last());
        assert(content_text(lines) =~= indented(lines[0]) + "\n"@ + content_text(lines.skip(1)));
    }
}

/// Content of lines that hold no line end is read back as those lines,
/// indented.
proof fn lemma_content_lines(lines: Seq<Seq<char>>)
    requires
        forall|k: int| 0 <= k < lines.len() ==> !(#[trigger] lines[k]).contains('\n'),
        forall|k: int|
            0 <= k < lines.len() ==> (#[trigger] lines[k]).len() == 0 || lines[k].last() != '\r',
    ensures
        text::lines_of(content_text(lines)) == lines.map_values(|l: Seq<char>| indented(l)),
    decreases lines.len(),
{
    let shown = lines.map_values(|l: Seq<char>| indented(l));
    if lines.len() == 0 {
        assert(text::lines_of(content_text(lines)) =~= shown);
    } else {
        let rest = lines.skip(1);
        assert forall|k: int| 0 <= k < rest.len() implies !(#[trigger] rest[k]).contains('\n') by {
            assert(rest[k] == lines[k + 1]);
        }
        assert forall|k: int| 0 <= k < rest.len() implies (#[trigger] rest[k]).len() == 0
            || rest[k].last() != '\r' by {
            assert(rest[k] == lines[k + 1]);
        }
        lemma_content_lines(rest);
        lemma_content_cons(lines);
        reveal_strlit("\n");
        reveal_strlit("        ");
        assert("\n"@ =~= seq!['\n']);
        let line = indented(lines[0]);
        assert(!line.contains('\n')) by {
            if line.contains('\n') {
                let i = choose|i: int| 0 <= i < line.len() && line[i] == '\n';
                if lines[0].len() > 0 {
                    assert(i >= 8);
                    assert(lines[0][i - 8] == '\n');
                    assert(lines[0].contains('\n'));
                }
            }
        }
        assert(line.len() == 0 || line.last() != '\r') by {
            if lines[0].len() > 0 {
                assert(line.last() == lines[0].last());
            }
        }
        lemma_first_line(line, content_text(rest));
        assert(shown =~= seq![line] + rest.map_values(|l: Seq<char>| indented(l)));
    }
}

/// The lines of a text hold no line feed.
proof fn lemma_lines_hold_no_end(s: Seq<char>)
    ensures
        forall|k: int| 0 <= k < text::lines_of(s).len() ==> !(#[trigger] text::lines_of(
            s,
        )[k]).contains('\n'),
    decreases s.len(),
{
    if s.len() > 0 {
        text::lemma_find_from(s, '\n', 0);
        let k = text::find_from(s, '\n', 0);
        let all = text::lines_of(s);
        if k < s.len() {
            let rest = text::lines_of(s.skip(k + 1));
            lemma_lines_hold_no_end(s.skip(k + 1));
            assert forall|i: int| 0 <= i < all.len() implies !(#[trigger] all[i]).contains(
                '\n',
            ) by {
                if i > 0 {
                    assert(all[i] == rest[i - 1]);
                } else {
                    assert(all[0] == text::without_cr(s.take(k)));
                }
            }
        } else {
            assert(all[0] == s);
        }
    }
}

/// Reading the content back line by line gives the lines of the
/// Containerfile, each indented by eight spaces unless it is empty.
pub proof fn law_content_holds_the_containerfile(containerfile: Seq<char>)
    requires
        forall|k: int|
            0 <= k < text::lines_of(containerfile).len() ==> (#[trigger] text::lines_of(
                containerfile,
            )[k]).len() == 0 || text::lines_of(containerfile)[k].last() != '\r',
    ensures
        text::lines_of(content_text(text::lines_of(containerfile))) == text::lines_of(
            containerfile,
        ).map_values(|l: Seq<char>| indented(l)),
{
    lemma_lines_hold_no_end(containerfile);
    lemma_content_lines(text::lines_of(containerfile));
}

/// A Containerfile of up to 4096 characters gets a manifest, and a larger one
/// is refused with both numbers.
pub proof fn law_size_decides(
    containerfile: Seq<char>,
    pool: Seq<char>,
    r: Result<String, String>,
)
    requires
        config_result(containerfile, pool, r),
    ensures
        r is Ok <==> containerfile.len() <= 4096,
        r matches Err(e) ==> e@ == "OCP Containerfile exceeds "@ + text::decimal(4096)
            + " character limit ("@ + text::decimal(containerfile.len())
            + " chars): reduce fragments or packages to fit within MachineOSConfig API limits"@,
{
}

/// The content stands line by line between a head that names the pool twice
/// and a tail that is always the same: an empty line of the Containerfile as
/// an empty line, and every other one as eight spaces and then the line
/// itself, whatever it begins with. So every line is eight characters deeper
/// than it was, and cutting these off gives the lines back.
pub proof fn law_every_line_is_indented_by_eight(
    containerfile: Seq<char>,
    pool: Seq<char>,
    r: Result<String, String>,
)
    requires
        config_result(containerfile, pool, r),
    ensures
        r matches Ok(out) ==> exists|content: Seq<Seq<char>>|
            {
                &&& content.len() == text::lines_of(containerfile).len()
                &&& out@
                    == "apiVersion: machineconfiguration.openshift.io/v1\nkind: MachineOSConfig\nmetadata:\n  name: "@
                    + pool + "\nspec:\n  machineConfigPool:\n    name: "@ + pool
                    + "\n  containerFile:\n    - containerfileArch: NoArch\n      content: |\n"@
                    + #[trigger] content.flatten()
                    + "  imageBuilder:\n    imageBuilderType: Job\n  renderedImagePushSecret:\n    name: REPLACE_WITH_SECRET_NAME  # e.g., builder-dockercfg-xxxxx\n  renderedImagePushSpec: image-registry.openshift-image-registry.svc:5000/openshift-machine-config-operator/os-images:latest\n"@
                &&& forall|k: int|
                    0 <= k < content.len() ==> {
                        let line = text::lines_of(containerfile)[k];
                        if line.len() == 0 {
                            #[trigger] content[k] == seq!['\n']
                        } else {
                            &&& content[k].len() == line.len() + 9
                            &&& forall|j: int| 0 <= j < 8 ==> #[trigger] content[k][j] == ' '
                            &&& content[k].skip(8) == line.push('\n')
                        }
                    }
            },
{
    if let Ok(out) = r {
        let lines = text::lines_of(containerfile);
        let content = Seq::new(lines.len(), |k: int| indented(lines[k]) + "\n"@);
        lemma_content_flat(lines);
        reveal_strlit("\n");
        reveal_strlit("        ");
        assert forall|k: int| 0 <= k < content.len() implies {
            let line = lines[k];
            if line.len() == 0 {
                #[trigger] content[k] == seq!['\n']
            } else {
                &&& content[k].len() == line.len() + 9
                &&& forall|j: int| 0 <= j < 8 ==> #[trigger] content[k][j] == ' '
                &&& content[k].skip(8) == line.push('\n')
            }
        } by {
            let line = lines[k];
            if line.len() == 0 {
                assert(content[k] =~= seq!['\n']);
            } else {
                assert(content[k] == "        "@ + line + "\n"@);
                assert(content[k].skip(8) =~= line.push('\n'));
            }
        }
        assert(out@ == config_text(containerfile, pool));
    }
}

/// The content is its lines, one after the other.
proof fn lemma_content_flat(lines: Seq<Seq<char>>)
    ensures
        content_text(lines) == Seq::new(
            lines.len(),
            |k: int| indented(lines[k]) + "\n"@,
        ).flatten(),
    decreases lines.len(),
{
    let all = Seq::new(lines.len(), |k: int| indented(lines[k]) + "\n"@);
    if lines.len() > 0 {
        let front = lines.drop_last();
        lemma_content_flat(front);
        let before = Seq::new(front.len(), |k: int| indented(front[k]) + "\n"@);
        assert(all =~= before.push(indented(lines.last()) + "\n"@));
        before.lemma_flatten_push(indented(lines.last()) + "\n"@);
        assert(content_text(lines) =~= all.flatten());
    } else {
        assert(content_text(lines) =~= all.flatten());
    }
}

} // verus!
