use std::path::{Path, PathBuf};

use osfragment_assemble::path::{
    file_name, is_under, join_path, parent, path_components, path_less, same_path, sort_list,
    strip_prefix, ListOrder,
};
use osfragment_assemble::text::{decimal_text, lines, pad_right, replace_char, trim};

const SAMPLES: [&str; 24] = [
    "", "/", "//", ".", "./", "..", "a", "a/", "/a", "a/b", "a//b", "a/./b", "./a", "a/..", "../a",
    "/a/b/", "etc/pki", "etc/pkix", "etc/pki/x", "/.", "a/.", ".a", "a.b/c", "\u{e9}/x",
];

fn text(p: Option<&Path>) -> Option<String> {
    p.map(|p| p.to_str().unwrap().to_string())
}

#[test]
fn paths_are_taken_apart_as_the_standard_library_does() {
    for s in SAMPLES {
        let p = Path::new(s);
        let components: Vec<String> =
            p.components().map(|c| c.as_os_str().to_str().unwrap().to_string()).collect();
        assert_eq!(path_components(s), components, "components of {s:?}");
        assert_eq!(parent(s), text(p.parent()), "parent of {s:?}");
        assert_eq!(
            file_name(s),
            p.file_name().map(|f| f.to_str().unwrap().to_string()),
            "file name of {s:?}"
        );
    }
}

#[test]
fn pairs_of_paths_compare_as_in_the_standard_library() {
    for a in SAMPLES {
        for b in SAMPLES {
            let (p, q) = (Path::new(a), Path::new(b));
            assert_eq!(same_path(a, b), p == q, "{a:?} == {b:?}");
            assert_eq!(is_under(a, b), p.starts_with(q), "{a:?} under {b:?}");
            assert_eq!(path_less(a, b), p < q, "{a:?} < {b:?}");
            assert_eq!(Path::new(&join_path(a, b)), p.join(q), "{a:?} join {b:?}");
            assert_eq!(join_path(a, b), p.join(q).to_str().unwrap(), "{a:?} join {b:?}");
            assert_eq!(
                strip_prefix(a, b),
                p.strip_prefix(q).ok().map(|r| r.to_str().unwrap().to_string()),
                "{a:?} without {b:?}"
            );
        }
    }
}

#[test]
fn lists_sort_as_in_the_standard_library() {
    let list: Vec<String> = SAMPLES.iter().rev().map(|s| s.to_string()).collect();
    let mut texts = list.clone();
    texts.sort();
    assert_eq!(sort_list(ListOrder::Texts, &list), texts);
    let mut paths: Vec<PathBuf> = list.iter().map(PathBuf::from).collect();
    paths.sort();
    let sorted: Vec<PathBuf> =
        sort_list(ListOrder::Paths, &list).iter().map(PathBuf::from).collect();
    assert_eq!(sorted, paths);
}

#[test]
fn text_is_handled_as_the_standard_library_does() {
    for s in ["", "\n", "a", "a\n", "a\r\n", "a\n\nb", "\r\n", "a\r", "a\r\r\nb\n", "\n\n"] {
        assert_eq!(lines(s), s.lines().collect::<Vec<_>>(), "{s:?}");
        assert_eq!(trim(s), s.trim(), "{s:?}");
    }
    for s in ["  a b\t", "\u{3000}x\u{85}", "\u{200b}y"] {
        assert_eq!(trim(s), s.trim(), "{s:?}");
    }
    for n in [0, 9, 10, 4096, u64::MAX] {
        assert_eq!(decimal_text(n), n.to_string());
    }
    assert_eq!(pad_right("ab", 4), "ab  ");
    assert_eq!(pad_right("\u{e9}bcde", 4), "\u{e9}bcde");
    assert_eq!(replace_char("sha256:a:b", ':', '/'), "sha256/a/b");
}
