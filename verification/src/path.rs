//! Unix path text.
//!
//! A path is cut at its `/` separators into named components. Empty pieces
//! name nothing, and neither does a `.` anywhere but at the very start. Two
//! texts that name the same components are the same path, however many
//! separators stand between them.

use vstd::prelude::*;

use crate::text;
use crate::text::{chars_of, find_char, same_text};

verus! {

/// The path starts at the root.
pub open spec fn is_absolute(p: Seq<char>) -> bool {
    p.len() > 0 && p[0] == '/'
}

/// The piece of `p` between positions `i` and `e` names no component.
pub open spec fn unnamed(p: Seq<char>, i: int, e: int) -> bool {
    i == e || (i > 0 && p.subrange(i, e) == seq!['.'])
}

/// Where the named components of `p` stand, from position `i` on: the start
/// and the end of each.
pub open spec fn spans_from(p: Seq<char>, i: int) -> Seq<(int, int)>
    decreases p.len() + 1 - i,
{
    if !(0 <= i < p.len()) {
        Seq::empty()
    } else {
        let e = text::find_from(p, '/', i);
        proof {
            text::lemma_find_from(p, '/', i);
        }
        if unnamed(p, i, e) {
            spans_from(p, e + 1)
        } else {
            seq![(i, e)] + spans_from(p, e + 1)
        }
    }
}

/// Where the named components of `p` stand.
pub open spec fn spans(p: Seq<char>) -> Seq<(int, int)> {
    spans_from(p, 0)
}

/// The pieces of `p` at the given places.
pub open spec fn pieces(p: Seq<char>, at: Seq<(int, int)>) -> Seq<Seq<char>> {
    at.map_values(|span: (int, int)| p.subrange(span.0, span.1))
}

/// The components that `p` names, without the root.
pub open spec fn names(p: Seq<char>) -> Seq<Seq<char>> {
    pieces(p, spans(p))
}

/// The components that `p` names, without the `.` that a path may start with.
pub open spec fn names_without_dot(p: Seq<char>) -> Seq<Seq<char>> {
    let all = names(p);
    if all.len() > 0 && all[0] == seq!['.'] {
        all.skip(1)
    } else {
        all
    }
}

/// The components of `p`; the root of an absolute path is the component `/`.
pub open spec fn components(p: Seq<char>) -> Seq<Seq<char>> {
    if is_absolute(p) {
        seq![seq!['/']] + names(p)
    } else {
        names(p)
    }
}

/// The text of the directory that holds the last component of `p`: everything
/// up to the end of the component before it. `None` when `p` names nothing.
pub open spec fn parent_of(p: Seq<char>) -> Option<Seq<char>> {
    let at = spans(p);
    if at.len() == 0 {
        None
    } else if at.len() == 1 {
        Some(
            if is_absolute(p) {
                seq!['/']
            } else {
                Seq::empty()
            },
        )
    } else {
        Some(p.take(at[at.len() - 2].1))
    }
}

/// The last component of `p`, when it is an ordinary name.
pub open spec fn file_name_of(p: Seq<char>) -> Option<Seq<char>> {
    if names(p).len() > 0 && ordinary(names(p).last()) {
        Some(names(p).last())
    } else {
        None
    }
}

/// What is left of `p` after the components of `base`, as it is written in
/// `p`. `None` when `p` does not start with them. An empty `base` leaves an
/// absolute path absolute.
pub open spec fn stripped(p: Seq<char>, base: Seq<char>) -> Option<Seq<char>> {
    let at = spans(p);
    let n = names(base).len() as int;
    if !components(base).is_prefix_of(components(p)) {
        None
    } else if base.len() == 0 && is_absolute(p) {
        Some(
            p.take(
                if at.len() == 0 {
                    1
                } else {
                    at.last().1
                },
            ),
        )
    } else if n >= at.len() {
        Some(Seq::empty())
    } else {
        Some(p.subrange(at[n].0, at.last().1))
    }
}

/// The path `rel` seen from directory `dir`.
pub open spec fn path_join(dir: Seq<char>, rel: Seq<char>) -> Seq<char> {
    if is_absolute(rel) {
        rel
    } else if dir.len() == 0 || dir.last() == '/' {
        dir + rel
    } else {
        dir + seq!['/'] + rel
    }
}

/// A component that names an entry of its directory: not empty, and neither
/// `.` nor `..`.
pub open spec fn ordinary(name: Seq<char>) -> bool {
    name.len() > 0 && name != seq!['.'] && name != seq!['.', '.']
}

/// Every piece of `p` between separators, from position `i` on, is an
/// ordinary component.
pub open spec fn ordinary_from(p: Seq<char>, i: int) -> bool
    decreases p.len() - i,
{
    let e = text::find_from(p, '/', i);
    if !(0 <= i <= p.len()) {
        false
    } else if e >= p.len() {
        ordinary(p.subrange(i, p.len() as int))
    } else {
        proof {
            text::lemma_find_from(p, '/', i);
        }
        ordinary(p.subrange(i, e)) && ordinary_from(p, e + 1)
    }
}

/// A relative path of ordinary components, written without a superfluous
/// separator.
pub open spec fn ordinary_path(p: Seq<char>) -> bool {
    ordinary_from(p, 0)
}

/// Where a component sorts among the kinds of component: the root, then `.`,
/// then `..`, then ordinary names.
pub open spec fn component_rank(c: Seq<char>) -> int {
    if c == seq!['/'] {
        0
    } else if c == seq!['.'] {
        1
    } else if c == seq!['.', '.'] {
        2
    } else {
        3
    }
}

/// `a` sorts before `b` from position `i` on, character by character.
pub open spec fn text_before_from(a: Seq<char>, b: Seq<char>, i: int) -> bool
    decreases b.len() - i,
{
    if i >= b.len() {
        false
    } else if i >= a.len() {
        true
    } else if a[i] != b[i] {
        a[i] < b[i]
    } else {
        text_before_from(a, b, i + 1)
    }
}

/// `a` sorts before `b` as a component.
pub open spec fn component_before(a: Seq<char>, b: Seq<char>) -> bool {
    ||| component_rank(a) < component_rank(b)
    ||| component_rank(a) == component_rank(b) && text_before_from(a, b, 0)
}

/// `a` sorts before `b` from component `i` on.
pub open spec fn components_before_from(
    a: Seq<Seq<char>>,
    b: Seq<Seq<char>>,
    i: int,
) -> bool
    decreases b.len() - i,
{
    if i >= b.len() {
        false
    } else if i >= a.len() {
        true
    } else if a[i] != b[i] {
        component_before(a[i], b[i])
    } else {
        components_before_from(a, b, i + 1)
    }
}

/// Path `a` sorts before path `b`, component by component.
pub open spec fn path_before(a: Seq<char>, b: Seq<char>) -> bool {
    components_before_from(components(a), components(b), 0)
}

/// Path `p` lies at `base` or below it.
pub open spec fn lies_under(p: Seq<char>, base: Seq<char>) -> bool {
    components(base).is_prefix_of(components(p))
}

/// Spans as positions in memory.
pub open spec fn span_positions(at: Seq<(usize, usize)>) -> Seq<(int, int)> {
    at.map_values(|span: (usize, usize)| (span.0 as int, span.1 as int))
}

/// Every span lies in the text, in order.
pub proof fn lemma_spans_from(p: Seq<char>, i: int)
    requires
        0 <= i,
    ensures
        forall|k: int|
            0 <= k < spans_from(p, i).len() ==> {
                &&& i <= (#[trigger] spans_from(p, i)[k]).0
                &&& spans_from(p, i)[k].0 < spans_from(p, i)[k].1 <= p.len()
            },
        forall|j: int, k: int|
            0 <= j < k < spans_from(p, i).len() ==> (#[trigger] spans_from(p, i)[j]).1 < (
            #[trigger] spans_from(p, i)[k]).0,
    decreases p.len() + 1 - i,
{
    if i < p.len() {
        text::lemma_find_from(p, '/', i);
        let e = text::find_from(p, '/', i);
        let all = spans_from(p, i);
        let tail = spans_from(p, e + 1);
        lemma_spans_from(p, e + 1);
        if !unnamed(p, i, e) {
            assert forall|k: int| 0 <= k < all.len() implies {
                &&& i <= (#[trigger] all[k]).0
                &&& all[k].0 < all[k].1 <= p.len()
            } by {
                if k > 0 {
                    assert(all[k] == tail[k - 1]);
                }
            }
            assert forall|j: int, k: int| 0 <= j < k < all.len() implies (#[trigger] all[j]).1 < (
            #[trigger] all[k]).0 by {
                assert(all[k] == tail[k - 1]);
                if j > 0 {
                    assert(all[j] == tail[j - 1]);
                }
            }
        }
    }
}

/// Where the named components of `p` stand.
fn spans_of(p: &[char]) -> (at: Vec<(usize, usize)>)
    ensures
        span_positions(at@) == spans(p@),
{
    let mut at: Vec<(usize, usize)> = Vec::new();
    let mut i: usize = 0;
    while i < p.len()
        invariant
            i <= p.len(),
            spans(p@) == span_positions(at@) + spans_from(p@, i as int),
        decreases p.len() - i,
    {
        let e = find_char(p, '/', i);
        let skip = e == i || (i > 0 && e == i + 1 && p[i] == '.');
        let ghost before = at@;
        proof {
            if i > 0 && p@.subrange(i as int, e as int) == seq!['.'] {
                assert(p@.subrange(i as int, e as int).len() == 1);
                assert(p@.subrange(i as int, e as int)[0] == '.');
            }
            if i > 0 && e == i + 1 && p@[i as int] == '.' {
                assert(p@.subrange(i as int, e as int) =~= seq!['.']);
            }
            assert(skip == unnamed(p@, i as int, e as int));
        }
        if !skip {
            at.push((i, e));
            proof {
                assert(span_positions(at@) =~= span_positions(before).push((i as int, e as int)));
                assert(span_positions(at@) + spans_from(p@, e + 1) =~= span_positions(before) + (
                seq![(i as int, e as int)] + spans_from(p@, e + 1)));
            }
        }
        if e < p.len() {
            i = e + 1;
        } else {
            assert(spans_from(p@, e + 1) =~= spans_from(p@, e as int));
            i = e;
        }
    }
    assert(span_positions(at@) + spans_from(p@, i as int) =~= span_positions(at@));
    at
}

/// The components that `p` names, without the root.
pub fn path_names(p: &str) -> (out: Vec<String>)
    ensures
        text::texts(out@) == names(p@),
{
    let chars = chars_of(p);
    let at = spans_of(&chars);
    let mut out: Vec<String> = Vec::new();
    proof {
        lemma_spans_from(p@, 0);
    }
    for k in 0..at.len()
        invariant
            chars@ == p@,
            span_positions(at@) == spans(p@),
            text::texts(out@) == names(p@).take(k as int),
            forall|k: int|
                0 <= k < spans(p@).len() ==> {
                    &&& 0 <= (#[trigger] spans(p@)[k]).0
                    &&& spans(p@)[k].0 < spans(p@)[k].1 <= p@.len()
                },
    {
        let ghost before = out@;
        assert(spans(p@)[k as int] == span_positions(at@)[k as int]);
        let (start, end) = at[k];
        let piece = p.substring_char(start, end);
        out.push(piece.to_owned());
        assert(names(p@)[k as int] == piece@);
        assert(text::texts(out@) =~= text::texts(before).push(piece@));
        assert(text::texts(out@) =~= names(p@).take(k + 1));
    }
    assert(at@.len() == spans(p@).len());
    assert(names(p@).take(names(p@).len() as int) =~= names(p@));
    out
}

/// The components that `p` names, without the `.` that a path may start with.
pub fn undotted_names(p: &str) -> (out: Vec<String>)
    ensures
        text::texts(out@) == names_without_dot(p@),
{
    let mut out = path_names(p);
    let ghost all = text::texts(out@);
    proof {
        reveal_strlit(".");
        assert("."@ =~= seq!['.']);
    }
    if out.len() > 0 {
        assert(all[0] == out@[0]@);
        if same_text(out[0].as_str(), ".") {
            out.remove(0);
            assert(text::texts(out@) =~= all.skip(1));
        }
    }
    out
}

/// The components of `p`; the root of an absolute path is the component `/`.
pub fn path_components(p: &str) -> (out: Vec<String>)
    ensures
        text::texts(out@) == components(p@),
{
    let mut out: Vec<String> = Vec::new();
    let chars = chars_of(p);
    if chars.len() > 0 && chars[0] == '/' {
        let root = "/".to_owned();
        proof {
            reveal_strlit("/");
            assert(root@ =~= seq!['/']);
        }
        out.push(root);
    }
    let ghost head = text::texts(out@);
    let mut rest = path_names(p);
    let ghost tail = text::texts(rest@);
    out.append(&mut rest);
    assert(text::texts(out@) =~= head + tail);
    assert(text::texts(out@) =~= components(p@));
    out
}

/// The text of the directory that holds the last component of `p`.
pub fn parent(p: &str) -> (out: Option<String>)
    ensures
        text::opt_text(out) == parent_of(p@),
{
    let chars = chars_of(p);
    let at = spans_of(&chars);
    proof {
        lemma_spans_from(p@, 0);
        assert(at@.len() == spans(p@).len());
        assert forall|k: int| 0 <= k < at@.len() implies spans(p@)[k] == (
            (#[trigger] at@[k]).0 as int,
            at@[k].1 as int,
        ) by {
            assert(spans(p@)[k] == span_positions(at@)[k]);
        }
    }
    if at.len() == 0 {
        None
    } else if at.len() == 1 {
        if chars.len() > 0 && chars[0] == '/' {
            let root = "/".to_owned();
            proof {
                reveal_strlit("/");
                assert(root@ =~= seq!['/']);
            }
            Some(root)
        } else {
            Some(String::new())
        }
    } else {
        let end: usize = at[at.len() - 2].1;
        let head = p.substring_char(0, end).to_owned();
        assert(head@ =~= p@.take(end as int));
        Some(head)
    }
}

/// Whether `name` is an ordinary component.
pub fn is_ordinary(name: &str) -> (r: bool)
    ensures
        r == ordinary(name@),
{
    let chars = chars_of(name);
    let n: usize = chars.len();
    let dot = n == 1 && chars[0] == '.';
    let dots = n == 2 && chars[0] == '.' && chars[1] == '.';
    proof {
        if dot {
            assert(name@ =~= seq!['.']);
        }
        if dots {
            assert(name@ =~= seq!['.', '.']);
        }
    }
    n > 0 && !dot && !dots
}

/// The last component of `p`, when it is an ordinary name.
pub fn file_name(p: &str) -> (out: Option<String>)
    ensures
        text::opt_text(out) == file_name_of(p@),
{
    let mut parts = path_names(p);
    let ghost all = text::texts(parts@);
    match parts.pop() {
        None => None,
        Some(last) => {
            assert(all.last() == last@);
            if is_ordinary(last.as_str()) {
                Some(last)
            } else {
                None
            }
        },
    }
}

/// Whether the list `parts` begins with `prefix`.
fn parts_start_with(parts: &[String], prefix: &[String]) -> (r: bool)
    ensures
        r == text::texts(prefix@).is_prefix_of(text::texts(parts@)),
{
    let ghost all = text::texts(parts@);
    let ghost head = text::texts(prefix@);
    if parts.len() < prefix.len() {
        return false;
    }
    for i in 0..prefix.len()
        invariant
            all == text::texts(parts@),
            head == text::texts(prefix@),
            head.len() <= all.len(),
            forall|j: int| 0 <= j < i ==> head[j] == all[j],
    {
        if !same_text(parts[i].as_str(), prefix[i].as_str()) {
            assert(head[i as int] != all.subrange(0, head.len() as int)[i as int]);
            return false;
        }
    }
    assert(head =~= all.subrange(0, head.len() as int));
    true
}

/// Whether path `p` lies at `base` or below it.
pub fn is_under(p: &str, base: &str) -> (r: bool)
    ensures
        r == lies_under(p@, base@),
{
    let parts = path_components(p);
    let prefix = path_components(base);
    parts_start_with(&parts, &prefix)
}

/// Whether two texts are the same path.
pub fn same_path(a: &str, b: &str) -> (r: bool)
    ensures
        r == (components(a@) == components(b@)),
{
    let x = path_components(a);
    let y = path_components(b);
    if x.len() != y.len() {
        assert(text::texts(x@).len() != text::texts(y@).len());
        return false;
    }
    let r = parts_start_with(&x, &y);
    proof {
        let cx = text::texts(x@);
        let cy = text::texts(y@);
        assert(cx.subrange(0, cy.len() as int) =~= cx);
    }
    r
}

/// What is left of `p` after the components of `base`.
pub fn strip_prefix(p: &str, base: &str) -> (out: Option<String>)
    ensures
        text::opt_text(out) == stripped(p@, base@),
{
    if !is_under(p, base) {
        return None;
    }
    let n: usize = path_names(base).len();
    assert(n == names(base@).len());
    let chars = chars_of(p);
    let at = spans_of(&chars);
    proof {
        lemma_spans_from(p@, 0);
        assert(at@.len() == spans(p@).len());
        assert forall|k: int| 0 <= k < at@.len() implies spans(p@)[k] == (
            (#[trigger] at@[k]).0 as int,
            at@[k].1 as int,
        ) by {
            assert(spans(p@)[k] == span_positions(at@)[k]);
        }
    }
    let base_chars = chars_of(base);
    if base_chars.len() == 0 && chars.len() > 0 && chars[0] == '/' {
        let end: usize = if at.len() == 0 {
            1
        } else {
            at[at.len() - 1].1
        };
        Some(p.substring_char(0, end).to_owned())
    } else if n >= at.len() {
        Some(String::new())
    } else {
        let start: usize = at[n].0;
        let end: usize = at[at.len() - 1].1;
        Some(p.substring_char(start, end).to_owned())
    }
}

/// The path `rel` seen from directory `dir`.
pub fn join_path(dir: &str, rel: &str) -> (out: String)
    ensures
        out@ == path_join(dir@, rel@),
{
    let rel_chars = chars_of(rel);
    if rel_chars.len() > 0 && rel_chars[0] == '/' {
        return rel.to_owned();
    }
    let dir_chars = chars_of(dir);
    let mut out = dir.to_owned();
    if dir_chars.len() > 0 && dir_chars[dir_chars.len() - 1] != '/' {
        out.append("/");
        proof {
            reveal_strlit("/");
            assert("/"@ =~= seq!['/']);
        }
    }
    out.append(rel);
    out
}

/// Whether `a` sorts before `b`, character by character.
fn text_less(a: &str, b: &str) -> (r: bool)
    ensures
        r == text_before_from(a@, b@, 0),
{
    let x = chars_of(a);
    let y = chars_of(b);
    let mut i: usize = 0;
    while i < y.len()
        invariant
            x@ == a@,
            y@ == b@,
            i <= y.len(),
            text_before_from(a@, b@, 0) == text_before_from(a@, b@, i as int),
        decreases y.len() - i,
    {
        if i >= x.len() {
            return true;
        }
        if x[i] != y[i] {
            return x[i] < y[i];
        }
        i = i + 1;
    }
    false
}

/// Where a component sorts among the kinds of component.
fn rank(c: &str) -> (r: u8)
    ensures
        r == component_rank(c@),
{
    let chars = chars_of(c);
    let n: usize = chars.len();
    if n == 1 && chars[0] == '/' {
        assert(c@ =~= seq!['/']);
        0
    } else if n == 1 && chars[0] == '.' {
        assert(c@ =~= seq!['.']);
        assert(c@[0] != seq!['/'][0]);
        1
    } else if n == 2 && chars[0] == '.' && chars[1] == '.' {
        assert(c@ =~= seq!['.', '.']);
        2
    } else {
        3
    }
}

/// Whether path `a` sorts before path `b`.
pub fn path_less(a: &str, b: &str) -> (r: bool)
    ensures
        r == path_before(a@, b@),
{
    let x = path_components(a);
    let y = path_components(b);
    let ghost cx = text::texts(x@);
    let ghost cy = text::texts(y@);
    let mut i: usize = 0;
    while i < y.len()
        invariant
            cx == text::texts(x@),
            cy == text::texts(y@),
            cx == components(a@),
            cy == components(b@),
            i <= y.len(),
            path_before(a@, b@) == components_before_from(cx, cy, i as int),
        decreases y.len() - i,
    {
        if i >= x.len() {
            return true;
        }
        assert(cx[i as int] == x@[i as int]@ && cy[i as int] == y@[i as int]@);
        if !same_text(x[i].as_str(), y[i].as_str()) {
            let rx = rank(x[i].as_str());
            let ry = rank(y[i].as_str());
            return rx < ry || (rx == ry && text_less(x[i].as_str(), y[i].as_str()));
        }
        i = i + 1;
    }
    false
}

/// Whether every piece of `p` between separators is an ordinary component.
pub fn is_ordinary_path(p: &str) -> (r: bool)
    ensures
        r == ordinary_path(p@),
{
    let chars = chars_of(p);
    let mut i: usize = 0;
    loop
        invariant
            chars@ == p@,
            i <= chars.len(),
            ordinary_path(p@) == ordinary_from(p@, i as int),
        decreases chars.len() - i,
    {
        let e = find_char(&chars, '/', i);
        if !is_ordinary(p.substring_char(i, e)) {
            return false;
        }
        if e == chars.len() {
            return true;
        }
        i = e + 1;
    }
}

/// At most one of two texts sorts before the other, and if neither does they
/// are the same.
proof fn lemma_text_order(a: Seq<char>, b: Seq<char>, i: int)
    requires
        0 <= i <= a.len(),
        i <= b.len(),
        forall|j: int| 0 <= j < i ==> a[j] == b[j],
    ensures
        !(text_before_from(a, b, i) && text_before_from(b, a, i)),
        text_before_from(a, b, i) || text_before_from(b, a, i) || a == b,
    decreases a.len() - i,
{
    if i < a.len() && i < b.len() && a[i] == b[i] {
        lemma_text_order(a, b, i + 1);
    } else if i == a.len() && i == b.len() {
        assert(a =~= b);
    }
}

/// Sorting before is transitive.
proof fn lemma_text_before_trans(a: Seq<char>, b: Seq<char>, c: Seq<char>, i: int)
    requires
        0 <= i,
        text_before_from(a, b, i),
        text_before_from(b, c, i),
    ensures
        text_before_from(a, c, i),
    decreases c.len() - i,
{
    if i < a.len() && i < b.len() && i < c.len() && a[i] == b[i] && b[i] == c[i] {
        lemma_text_before_trans(a, b, c, i + 1);
    }
}

proof fn lemma_component_order(a: Seq<char>, b: Seq<char>)
    ensures
        !(component_before(a, b) && component_before(b, a)),
        component_before(a, b) || component_before(b, a) || a == b,
{
    lemma_text_order(a, b, 0);
}

proof fn lemma_component_before_trans(a: Seq<char>, b: Seq<char>, c: Seq<char>)
    requires
        component_before(a, b),
        component_before(b, c),
    ensures
        component_before(a, c),
{
    if component_rank(a) == component_rank(b) && component_rank(b) == component_rank(c) {
        lemma_text_before_trans(a, b, c, 0);
    }
}

proof fn lemma_components_order(a: Seq<Seq<char>>, b: Seq<Seq<char>>, i: int)
    requires
        0 <= i <= a.len(),
        i <= b.len(),
        forall|j: int| 0 <= j < i ==> a[j] == b[j],
    ensures
        !(components_before_from(a, b, i) && components_before_from(b, a, i)),
        components_before_from(a, b, i) || components_before_from(b, a, i) || a == b,
    decreases a.len() - i,
{
    if i < a.len() && i < b.len() {
        if a[i] == b[i] {
            lemma_components_order(a, b, i + 1);
        } else {
            lemma_component_order(a[i], b[i]);
        }
    } else if i == a.len() && i == b.len() {
        assert(a =~= b);
    }
}

proof fn lemma_components_before_trans(
    a: Seq<Seq<char>>,
    b: Seq<Seq<char>>,
    c: Seq<Seq<char>>,
    i: int,
)
    requires
        0 <= i,
        components_before_from(a, b, i),
        components_before_from(b, c, i),
    ensures
        components_before_from(a, c, i),
    decreases c.len() - i,
{
    if i < a.len() && i < b.len() && i < c.len() {
        if a[i] == b[i] && b[i] == c[i] {
            lemma_components_before_trans(a, b, c, i + 1);
        } else if a[i] != b[i] && b[i] != c[i] {
            lemma_component_before_trans(a[i], b[i], c[i]);
            lemma_component_order(a[i], b[i]);
        }
    }
}

/// Of two paths exactly one holds: the first sorts before the second, the
/// second before the first, or they are the same path.
pub proof fn lemma_path_order_total(a: Seq<char>, b: Seq<char>)
    ensures
        !(path_before(a, b) && path_before(b, a)),
        path_before(a, b) || path_before(b, a) || components(a) == components(b),
        components(a) == components(b) ==> !path_before(a, b),
{
    lemma_components_order(components(a), components(b), 0);
    if components(a) == components(b) {
        lemma_components_order(components(a), components(a), 0);
    }
}

/// The order of paths is transitive.
pub proof fn lemma_path_order_transitive(a: Seq<char>, b: Seq<char>, c: Seq<char>)
    requires
        path_before(a, b),
        path_before(b, c),
    ensures
        path_before(a, c),
{
    lemma_components_before_trans(components(a), components(b), components(c), 0);
}

/// Two texts that end alike find a character at the same distance.
proof fn lemma_find_from_same_tail(p: Seq<char>, i: int, q: Seq<char>, j: int, c: char)
    requires
        0 <= i <= p.len(),
        0 <= j <= q.len(),
        p.skip(i) == q.skip(j),
    ensures
        text::find_from(p, c, i) - i == text::find_from(q, c, j) - j,
    decreases p.len() - i,
{
    assert(p.len() - i == q.len() - j) by {
        assert(p.skip(i).len() == p.len() - i);
        assert(q.skip(j).len() == q.len() - j);
    }
    if i < p.len() {
        assert(p.skip(i)[0] == p[i]);
        assert(q.skip(j)[0] == q[j]);
        if p[i] != c {
            assert(p.skip(i + 1) =~= p.skip(i).skip(1));
            assert(q.skip(j + 1) =~= q.skip(j).skip(1));
            lemma_find_from_same_tail(p, i + 1, q, j + 1, c);
        }
    }
}

/// What an ordinary rest of a path names does not depend on what stands
/// before it.
proof fn lemma_ordinary_same_tail(p: Seq<char>, i: int, q: Seq<char>, j: int)
    requires
        0 <= i <= p.len(),
        0 <= j <= q.len(),
        p.skip(i) == q.skip(j),
        ordinary_from(p, i),
    ensures
        ordinary_from(q, j),
        pieces(p, spans_from(p, i)) == pieces(q, spans_from(q, j)),
    decreases p.len() - i,
{
    lemma_find_from_same_tail(p, i, q, j, '/');
    text::lemma_find_from(p, '/', i);
    text::lemma_find_from(q, '/', j);
    let e = text::find_from(p, '/', i);
    let f = text::find_from(q, '/', j);
    assert(p.skip(i).len() == q.skip(j).len());
    assert(p.subrange(i, e) =~= p.skip(i).take(e - i));
    assert(q.subrange(j, f) =~= q.skip(j).take(f - j));
    assert(p.subrange(i, e) == q.subrange(j, f));
    assert(ordinary(p.subrange(i, e)));
    assert(i < e);
    if e < p.len() {
        assert(p.skip(e + 1) =~= p.skip(i).skip(e + 1 - i));
        assert(q.skip(f + 1) =~= q.skip(j).skip(f + 1 - j));
        lemma_ordinary_same_tail(p, e + 1, q, f + 1);
    }
    assert(pieces(p, spans_from(p, i)) =~= seq![p.subrange(i, e)] + pieces(
        p,
        spans_from(p, e + 1),
    ));
    assert(pieces(q, spans_from(q, j)) =~= seq![q.subrange(j, f)] + pieces(
        q,
        spans_from(q, f + 1),
    ));
    if e >= p.len() {
        assert(pieces(p, spans_from(p, e + 1)) =~= pieces(q, spans_from(q, f + 1)));
    }
}

/// Joining puts the first part in front of the joined rest.
pub proof fn lemma_joined_cons(head: Seq<char>, rest: Seq<Seq<char>>, sep: Seq<char>)
    requires
        rest.len() > 0,
    ensures
        text::joined(seq![head] + rest, sep) == head + sep + text::joined(rest, sep),
    decreases rest.len(),
{
    let all = seq![head] + rest;
    if rest.len() == 1 {
        assert(all.drop_last() =~= seq![head]);
        assert(all.last() == rest[0]);
        assert(text::joined(all.drop_last(), sep) == head);
    } else {
        assert(all.drop_last() =~= seq![head] + rest.drop_last());
        lemma_joined_cons(head, rest.drop_last(), sep);
        assert(text::joined(all, sep) =~= head + sep + text::joined(rest, sep));
    }
}

/// A component as a list of components may hold it: ordinary and without a
/// separator.
pub open spec fn plain_name(name: Seq<char>) -> bool {
    ordinary(name) && !name.contains('/')
}

/// Joining ordinary names with separators writes a path of exactly these
/// names.
pub proof fn lemma_joined_names(list: Seq<Seq<char>>)
    requires
        list.len() > 0,
        forall|k: int| 0 <= k < list.len() ==> plain_name(#[trigger] list[k]),
    ensures
        ordinary_path(text::joined(list, seq!['/'])),
        names(text::joined(list, seq!['/'])) == list,
        !is_absolute(text::joined(list, seq!['/'])),
    decreases list.len(),
{
    let p = text::joined(list, seq!['/']);
    let head = list[0];
    assert(plain_name(head));
    if list.len() == 1 {
        assert(p == head);
        text::lemma_find_from(p, '/', 0);
        assert(text::find_from(p, '/', 0) == p.len()) by {
            if text::find_from(p, '/', 0) < p.len() {
                assert(p.contains('/'));
            }
        }
        assert(p.subrange(0, p.len() as int) =~= p);
        assert(spans_from(p, p.len() as int + 1) =~= Seq::<(int, int)>::empty());
        assert(spans(p) =~= seq![(0, p.len() as int)]);
        assert(names(p) =~= list);
        assert(p[0] != '/') by {
            if p[0] == '/' {
                assert(p.contains('/'));
            }
        }
    } else {
        let rest = list.skip(1);
        assert(list =~= seq![head] + rest);
        assert forall|k: int| 0 <= k < rest.len() implies plain_name(#[trigger] rest[k]) by {
            assert(rest[k] == list[k + 1]);
        }
        lemma_joined_names(rest);
        let q = text::joined(rest, seq!['/']);
        lemma_joined_cons(head, rest, seq!['/']);
        assert(p =~= head + seq!['/'] + q);
        assert forall|j: int| 0 <= j < head.len() implies p[j] != '/' by {
            assert(p[j] == head[j]);
            if head[j] == '/' {
                assert(head.contains('/'));
            }
        }
        text::lemma_find_from_is(p, '/', 0, head.len() as int);
        assert(p.subrange(0, head.len() as int) =~= head);
        assert(p.skip(head.len() as int + 1) =~= q.skip(0));
        lemma_ordinary_same_tail(q, 0, p, head.len() as int + 1);
        assert(pieces(p, spans(p)) =~= seq![head] + pieces(p, spans_from(p, head.len() as int + 1)));
        assert(p[0] != '/');
    }
}

/// A path of ordinary pieces names those pieces, and joining them gives the
/// path back.
proof fn lemma_ordinary_from_names(p: Seq<char>, i: int)
    requires
        0 <= i <= p.len(),
        ordinary_from(p, i),
    ensures
        pieces(p, spans_from(p, i)).len() > 0,
        forall|k: int|
            0 <= k < pieces(p, spans_from(p, i)).len() ==> plain_name(
                #[trigger] pieces(p, spans_from(p, i))[k],
            ),
        text::joined(pieces(p, spans_from(p, i)), seq!['/']) == p.skip(i),
    decreases p.len() - i,
{
    text::lemma_find_from(p, '/', i);
    let e = text::find_from(p, '/', i);
    let head = p.subrange(i, e);
    let all = pieces(p, spans_from(p, i));
    let rest = pieces(p, spans_from(p, e + 1));
    assert(ordinary(head));
    assert(!head.contains('/'));
    assert(all =~= seq![head] + rest);
    if e < p.len() {
        lemma_ordinary_from_names(p, e + 1);
        lemma_joined_cons(head, rest, seq!['/']);
        assert(p.skip(i) =~= head + seq!['/'] + p.skip(e + 1));
        assert forall|k: int| 0 <= k < all.len() implies plain_name(#[trigger] all[k]) by {
            if k > 0 {
                assert(all[k] == rest[k - 1]);
            }
        }
    } else {
        assert(rest =~= Seq::<Seq<char>>::empty());
        assert(all =~= seq![head]);
        assert(p.skip(i) =~= head);
    }
}

/// A path of ordinary pieces is relative, its names are ordinary, and joining
/// them gives the path back.
pub proof fn lemma_ordinary_path(p: Seq<char>)
    requires
        ordinary_path(p),
    ensures
        !is_absolute(p),
        components(p) == names(p),
        names(p).len() > 0,
        forall|k: int| 0 <= k < names(p).len() ==> plain_name(#[trigger] names(p)[k]),
        text::joined(names(p), seq!['/']) == p,
{
    lemma_ordinary_from_names(p, 0);
    assert(p.skip(0) =~= p);
    text::lemma_find_from(p, '/', 0);
    let e = text::find_from(p, '/', 0);
    assert(ordinary(p.subrange(0, e)));
}

/// What a path can name: nothing empty, nothing with a separator, and `.`
/// only where the path starts.
pub proof fn lemma_names(p: Seq<char>)
    ensures
        forall|k: int|
            0 <= k < names(p).len() ==> {
                &&& (#[trigger] names(p)[k]).len() > 0
                &&& !names(p)[k].contains('/')
                &&& names(p)[k] == seq!['.'] ==> k == 0 && !is_absolute(p)
            },
{
    lemma_names_from(p, 0);
    assert forall|k: int| 0 <= k < names(p).len() implies {
        &&& (#[trigger] names(p)[k]).len() > 0
        &&& !names(p)[k].contains('/')
        &&& names(p)[k] == seq!['.'] ==> k == 0 && !is_absolute(p)
    } by {
        lemma_spans_from(p, 0);
        let at = spans_from(p, 0);
        assert(names(p)[k] == p.subrange(at[k].0, at[k].1));
        if names(p)[k] == seq!['.'] {
            assert(at[k].0 == 0);
            assert(p.subrange(at[k].0, at[k].1)[0] == p[0]);
            if k > 0 {
                assert(at[0].1 < at[k].0);
            }
        }
    }
}

/// Without a leading `.`, what a path names is ordinary, unless it is `..`.
pub proof fn lemma_names_without_dot(p: Seq<char>)
    requires
        !names_without_dot(p).contains(seq!['.', '.']),
    ensures
        forall|k: int|
            0 <= k < names_without_dot(p).len() ==> plain_name(
                #[trigger] names_without_dot(p)[k],
            ),
{
    lemma_names(p);
    let all = names(p);
    let list = names_without_dot(p);
    assert forall|k: int| 0 <= k < list.len() implies plain_name(#[trigger] list[k]) by {
        let m = if all[0] == seq!['.'] {
            k + 1
        } else {
            k
        };
        assert(all[m] == list[k]);
        assert(list.contains(list[k]));
    }
}

proof fn lemma_names_from(p: Seq<char>, i: int)
    requires
        0 <= i,
    ensures
        forall|k: int|
            0 <= k < spans_from(p, i).len() ==> {
                let span = #[trigger] spans_from(p, i)[k];
                let name = p.subrange(span.0, span.1);
                &&& name.len() > 0
                &&& !name.contains('/')
                &&& name == seq!['.'] ==> span.0 == 0
            },
    decreases p.len() + 1 - i,
{
    if i < p.len() {
        text::lemma_find_from(p, '/', i);
        let e = text::find_from(p, '/', i);
        lemma_names_from(p, e + 1);
        let all = spans_from(p, i);
        let tail = spans_from(p, e + 1);
        if !unnamed(p, i, e) {
            assert forall|k: int| 0 <= k < all.len() implies {
                let span = #[trigger] all[k];
                let name = p.subrange(span.0, span.1);
                &&& name.len() > 0
                &&& !name.contains('/')
                &&& name == seq!['.'] ==> span.0 == 0
            } by {
                if k > 0 {
                    assert(all[k] == tail[k - 1]);
                } else {
                    assert(all[0] == (i, e));
                }
            }
        }
    }
}

/// Names that stand before a separator stay when more follows it.
proof fn lemma_spans_before_child(d: Seq<char>, name: Seq<char>, i: int)
    requires
        0 <= i <= d.len(),
        plain_name(name),
    ensures
        spans_from(d + seq!['/'] + name, i) == spans_from(d, i).push(
            (d.len() as int + 1, d.len() as int + 1 + name.len()),
        ),
    decreases d.len() - i,
{
    let p = d + seq!['/'] + name;
    let start = d.len() as int + 1;
    let last = (start, p.len() as int);
    text::lemma_find_from(d, '/', i);
    let e = text::find_from(d, '/', i);
    assert forall|j: int| i <= j < e implies p[j] != '/' by {
        assert(p[j] == d[j]);
    }
    assert(p[e] == '/');
    text::lemma_find_from_is(p, '/', i, e);
    assert(p.subrange(i, e) =~= d.subrange(i, e));
    assert(spans_from(p, start) == seq![last]) by {
        assert(p.skip(start) =~= name);
        text::lemma_find_from(p, '/', start);
        let f = text::find_from(p, '/', start);
        if f < p.len() {
            assert(name[f - start] == '/');
            assert(name.contains('/'));
        }
        assert(p.subrange(start, f) =~= name);
        assert(spans_from(p, f + 1) =~= Seq::<(int, int)>::empty());
        assert(spans_from(p, start) =~= seq![last]);
    }
    if e < d.len() {
        lemma_spans_before_child(d, name, e + 1);
    } else {
        assert(spans_from(d, e + 1) =~= Seq::<(int, int)>::empty());
    }
    assert(spans_from(p, e + 1) =~= spans_from(d, e + 1).push(last));
    assert(spans_from(d, d.len() as int) =~= Seq::<(int, int)>::empty());
    if i < d.len() {
        assert(spans_from(p, i) =~= spans_from(d, i).push(last));
    } else {
        assert(spans_from(p, i) =~= seq![last]);
    }
}

/// A separator at the end of a path names nothing.
proof fn lemma_spans_trailing_separator(d: Seq<char>, i: int)
    requires
        0 <= i <= d.len(),
    ensures
        spans_from(d + seq!['/'], i) == spans_from(d, i),
    decreases d.len() - i,
{
    let p = d + seq!['/'];
    text::lemma_find_from(d, '/', i);
    let e = text::find_from(d, '/', i);
    assert forall|j: int| i <= j < e implies p[j] != '/' by {
        assert(p[j] == d[j]);
    }
    assert(p[e] == '/');
    text::lemma_find_from_is(p, '/', i, e);
    assert(p.subrange(i, e) =~= d.subrange(i, e));
    if e < d.len() {
        lemma_spans_trailing_separator(d, e + 1);
    } else {
        assert(spans_from(d, e + 1) =~= Seq::<(int, int)>::empty());
        assert(spans_from(p, e + 1) =~= Seq::<(int, int)>::empty());
    }
}

/// A separator at the end of a path changes nothing that the path names.
pub proof fn lemma_trailing_separator(d: Seq<char>)
    ensures
        names(d + seq!['/']) == names(d),
        spans(d + seq!['/']) == spans(d),
        d.len() > 0 ==> components(d + seq!['/']) == components(d),
{
    let p = d + seq!['/'];
    lemma_spans_trailing_separator(d, 0);
    lemma_spans_from(d, 0);
    assert forall|k: int| 0 <= k < spans(d).len() implies #[trigger] names(p)[k] == names(d)[k] by {
        let span = spans_from(d, 0)[k];
        assert(p.subrange(span.0, span.1) =~= d.subrange(span.0, span.1));
    }
    assert(names(p) =~= names(d));
    if d.len() > 0 {
        assert(p[0] == d[0]);
    }
}

/// Joining an ordinary name onto any directory gives a direct child of that
/// directory: its components and the name.
pub proof fn lemma_join_child(dir: Seq<char>, name: Seq<char>)
    requires
        plain_name(name),
    ensures
        components(path_join(dir, name)) == components(dir).push(name),
{
    let p = path_join(dir, name);
    assert(!is_absolute(name)) by {
        if is_absolute(name) {
            assert(name.contains(name[0]));
        }
    }
    if dir.len() == 0 {
        assert(p =~= name);
        assert(name =~= text::joined(seq![name], seq!['/']));
        lemma_joined_names(seq![name]);
        assert(names(p) =~= seq![name]);
        assert(components(dir) =~= Seq::<Seq<char>>::empty());
        assert(components(p) =~= components(dir).push(name));
    } else {
        let d = if dir.last() == '/' {
            dir.drop_last()
        } else {
            dir
        };
        assert(p =~= d + seq!['/'] + name);
        lemma_spans_before_child(d, name, 0);
        if dir.last() == '/' {
            assert(dir =~= d + seq!['/']);
            lemma_trailing_separator(d);
        }
        let last = (d.len() as int + 1, p.len() as int);
        assert(p.subrange(last.0, last.1) =~= name);
        lemma_spans_from(d, 0);
        assert(names(p) =~= names(d).push(name)) by {
            assert forall|k: int| 0 <= k < names(p).len() implies #[trigger] names(p)[k]
                == names(d).push(name)[k] by {
                if k < spans(d).len() {
                    let span = spans_from(d, 0)[k];
                    assert(spans(p)[k] == span);
                    assert(p.subrange(span.0, span.1) =~= d.subrange(span.0, span.1));
                } else {
                    assert(spans(p)[k] == last);
                }
            }
        }
        assert(p[0] == dir[0]);
        assert(components(p) =~= components(dir).push(name));
    }
}

/// The last component of a path of ordinary pieces ends the path.
proof fn lemma_ordinary_end(p: Seq<char>, i: int)
    requires
        0 <= i <= p.len(),
        ordinary_from(p, i),
    ensures
        spans_from(p, i).len() > 0,
        spans_from(p, i).last().1 == p.len(),
    decreases p.len() - i,
{
    text::lemma_find_from(p, '/', i);
    let e = text::find_from(p, '/', i);
    assert(ordinary(p.subrange(i, e)));
    if e < p.len() {
        lemma_ordinary_end(p, e + 1);
    } else {
        assert(spans_from(p, e + 1) =~= Seq::<(int, int)>::empty());
    }
}

/// How a list is put in order.
#[derive(Debug, Clone, Copy, PartialEq, Eq, Structural)]
pub enum ListOrder {
    /// As paths, component by component.
    Paths,
    /// As texts, character by character.
    Texts,
}

/// `a` sorts before `b`.
pub open spec fn sorts_before(order: ListOrder, a: Seq<char>, b: Seq<char>) -> bool {
    match order {
        ListOrder::Paths => path_before(a, b),
        ListOrder::Texts => text_before_from(a, b, 0),
    }
}

/// `list` with `item` behind everything that it does not sort before.
pub open spec fn inserted(
    order: ListOrder,
    list: Seq<Seq<char>>,
    item: Seq<char>,
) -> Seq<Seq<char>>
    decreases list.len(),
{
    if list.len() == 0 || !sorts_before(order, item, list.last()) {
        list.push(item)
    } else {
        inserted(order, list.drop_last(), item).push(list.last())
    }
}

/// `list` in order; entries of which neither sorts before the other stay as
/// they were.
pub open spec fn sorted(order: ListOrder, list: Seq<Seq<char>>) -> Seq<Seq<char>>
    decreases list.len(),
{
    if list.len() == 0 {
        list
    } else {
        inserted(order, sorted(order, list.drop_last()), list.last())
    }
}

/// No entry sorts before an earlier one.
pub open spec fn in_order(order: ListOrder, list: Seq<Seq<char>>) -> bool {
    forall|i: int, j: int|
        0 <= i < j < list.len() ==> !sorts_before(order, #[trigger] list[j], #[trigger] list[i])
}

/// Whether `a` sorts before `b`.
fn sorts_less(order: ListOrder, a: &str, b: &str) -> (r: bool)
    ensures
        r == sorts_before(order, a@, b@),
{
    match order {
        ListOrder::Paths => path_less(a, b),
        ListOrder::Texts => text_less(a, b),
    }
}

/// `list` in order.
pub fn sort_list(order: ListOrder, list: &[String]) -> (out: Vec<String>)
    ensures
        text::texts(out@) == sorted(order, text::texts(list@)),
{
    let ghost all = text::texts(list@);
    let mut out: Vec<String> = Vec::new();
    assert(text::texts(out@) =~= sorted(order, all.take(0)));
    for i in 0..list.len()
        invariant
            all == text::texts(list@),
            text::texts(out@) == sorted(order, all.take(i as int)),
    {
        let ghost before = text::texts(out@);
        let ghost item = all[i as int];
        let mut at: usize = out.len();
        assert(before.take(at as int) =~= before);
        assert(inserted(order, before, item) =~= inserted(order, before.take(at as int), item)
            + before.skip(at as int));
        while at > 0 && sorts_less(order, list[i].as_str(), out[at - 1].as_str())
            invariant
                i < list.len(),
                all == text::texts(list@),
                item == all[i as int],
                before == text::texts(out@),
                at <= out.len(),
                inserted(order, before, item) == inserted(order, before.take(at as int), item)
                    + before.skip(at as int),
            decreases at,
        {
            proof {
                let part = before.take(at as int);
                assert(part.last() == before[at - 1]);
                assert(before[at - 1] == out@[at - 1]@);
                assert(part.drop_last() =~= before.take(at - 1));
                assert(inserted(order, part.drop_last(), item).push(part.last()) + before.skip(
                    at as int,
                ) =~= inserted(order, before.take(at - 1), item) + before.skip(at - 1));
            }
            at = at - 1;
        }
        proof {
            let part = before.take(at as int);
            if at > 0 {
                assert(part.last() == before[at - 1]);
                assert(before[at - 1] == out@[at - 1]@);
            }
            assert(inserted(order, part, item) == part.push(item));
        }
        out.insert(at, list[i].clone());
        proof {
            assert(text::texts(out@) =~= before.take(at as int).push(item) + before.skip(
                at as int,
            ));
            assert(all.take(i + 1).drop_last() =~= all.take(i as int));
            assert(all.take(i + 1).last() == item);
        }
    }
    assert(all.take(all.len() as int) =~= all);
    out
}

/// Of two texts at most one sorts before the other, and sorting before goes
/// on from one pair to the next.
proof fn lemma_sorts_before(order: ListOrder, a: Seq<char>, b: Seq<char>, c: Seq<char>)
    ensures
        !(sorts_before(order, a, b) && sorts_before(order, b, a)),
        sorts_before(order, a, b) && !sorts_before(order, c, b) ==> sorts_before(order, a, c),
{
    match order {
        ListOrder::Paths => {
            lemma_path_order_total(a, b);
            lemma_path_order_total(b, c);
            if path_before(a, b) && path_before(b, c) {
                lemma_path_order_transitive(a, b, c);
            }
        },
        ListOrder::Texts => {
            lemma_text_order(a, b, 0);
            lemma_text_order(b, c, 0);
            if text_before_from(a, b, 0) && text_before_from(b, c, 0) {
                lemma_text_before_trans(a, b, c, 0);
            }
        },
    }
}

/// Inserting into a list that is in order keeps it so, and adds the item.
proof fn lemma_inserted(order: ListOrder, list: Seq<Seq<char>>, item: Seq<char>)
    requires
        in_order(order, list),
    ensures
        in_order(order, inserted(order, list, item)),
        inserted(order, list, item).to_multiset() == list.to_multiset().insert(item),
        forall|x: Seq<char>| #[trigger]
            inserted(order, list, item).contains(x) ==> list.contains(x) || x == item,
    decreases list.len(),
{
    broadcast use vstd::seq_lib::group_to_multiset_ensures;

    let all = inserted(order, list, item);
    if list.len() == 0 || !sorts_before(order, item, list.last()) {
        assert forall|i: int, j: int| 0 <= i < j < all.len() implies !sorts_before(
            order,
            #[trigger] all[j],
            #[trigger] all[i],
        ) by {
            if j == list.len() {
                let last = list[list.len() - 1];
                if i < list.len() - 1 {
                    assert(!sorts_before(order, last, list[i]));
                }
                lemma_sorts_before(order, item, list[i], last);
            } else {
                assert(all[i] == list[i] && all[j] == list[j]);
            }
        }
        assert forall|x: Seq<char>| #[trigger] all.contains(x) implies list.contains(x) || x
            == item by {
            let k = choose|k: int| 0 <= k < all.len() && all[k] == x;
            if k < list.len() {
                assert(list[k] == x);
            }
        }
    } else {
        let rest = list.drop_last();
        let last = list.last();
        let part = inserted(order, rest, item);
        assert forall|i: int, j: int| 0 <= i < j < rest.len() implies !sorts_before(
            order,
            #[trigger] rest[j],
            #[trigger] rest[i],
        ) by {
            assert(rest[i] == list[i] && rest[j] == list[j]);
        }
        lemma_inserted(order, rest, item);
        assert(list =~= rest.push(last));
        assert forall|i: int, j: int| 0 <= i < j < all.len() implies !sorts_before(
            order,
            #[trigger] all[j],
            #[trigger] all[i],
        ) by {
            if j == part.len() {
                assert(all[i] == part[i]);
                assert(part.contains(part[i]));
                if part[i] == item {
                    lemma_sorts_before(order, item, last, item);
                } else {
                    assert(rest.contains(part[i]));
                    let k = choose|k: int| 0 <= k < rest.len() && rest[k] == part[i];
                    assert(list[k] == part[i]);
                    assert(!sorts_before(order, list[list.len() - 1], list[k]));
                }
            } else {
                assert(all[i] == part[i] && all[j] == part[j]);
            }
        }
        assert forall|x: Seq<char>| #[trigger] all.contains(x) implies list.contains(x) || x
            == item by {
            let k = choose|k: int| 0 <= k < all.len() && all[k] == x;
            if k < part.len() {
                assert(part[k] == x);
                assert(part.contains(x));
                if x != item {
                    let m = choose|m: int| 0 <= m < rest.len() && rest[m] == x;
                    assert(list[m] == x);
                }
            } else {
                assert(list[list.len() - 1] == x);
            }
        }
        assert(all.to_multiset() =~= list.to_multiset().insert(item));
    }
}

/// Sorting keeps every entry as often as it stood in the list, and leaves no
/// entry behind one that it sorts before.
pub proof fn law_sorting_orders_the_same_entries(order: ListOrder, list: Seq<Seq<char>>)
    ensures
        in_order(order, sorted(order, list)),
        sorted(order, list).to_multiset() == list.to_multiset(),
    decreases list.len(),
{
    broadcast use vstd::seq_lib::group_to_multiset_ensures;

    if list.len() > 0 {
        law_sorting_orders_the_same_entries(order, list.drop_last());
        lemma_inserted(order, sorted(order, list.drop_last()), list.last());
        assert(list =~= list.drop_last().push(list.last()));
    }
}

/// From any piece but the first on, what a path names does not depend on what
/// stands before it.
proof fn lemma_same_tail(p: Seq<char>, i: int, q: Seq<char>, j: int)
    requires
        0 < i <= p.len(),
        0 < j <= q.len(),
        p.skip(i) == q.skip(j),
    ensures
        pieces(p, spans_from(p, i)) == pieces(q, spans_from(q, j)),
    decreases p.len() - i,
{
    assert(p.len() - i == q.len() - j) by {
        assert(p.skip(i).len() == p.len() - i);
        assert(q.skip(j).len() == q.len() - j);
    }
    if i < p.len() {
        lemma_find_from_same_tail(p, i, q, j, '/');
        text::lemma_find_from(p, '/', i);
        text::lemma_find_from(q, '/', j);
        let e = text::find_from(p, '/', i);
        let f = text::find_from(q, '/', j);
        assert(p.subrange(i, e) =~= p.skip(i).take(e - i));
        assert(q.subrange(j, f) =~= q.skip(j).take(f - j));
        assert(unnamed(p, i, e) == unnamed(q, j, f));
        if e < p.len() {
            assert(p.skip(e + 1) =~= p.skip(i).skip(e + 1 - i));
            assert(q.skip(f + 1) =~= q.skip(j).skip(f + 1 - j));
            lemma_same_tail(p, e + 1, q, f + 1);
        } else {
            assert(spans_from(p, e + 1) =~= Seq::<(int, int)>::empty());
            assert(spans_from(q, f + 1) =~= Seq::<(int, int)>::empty());
            assert(pieces(p, spans_from(p, e + 1)) =~= pieces(q, spans_from(q, f + 1)));
        }
        if !unnamed(p, i, e) {
            assert(pieces(p, spans_from(p, i)) =~= seq![p.subrange(i, e)] + pieces(
                p,
                spans_from(p, e + 1),
            ));
            assert(pieces(q, spans_from(q, j)) =~= seq![q.subrange(j, f)] + pieces(
                q,
                spans_from(q, f + 1),
            ));
        }
    } else {
        assert(spans_from(p, i) =~= Seq::<(int, int)>::empty());
        assert(spans_from(q, j) =~= Seq::<(int, int)>::empty());
        assert(pieces(p, spans_from(p, i)) =~= pieces(q, spans_from(q, j)));
    }
}

/// A path written with `./` in front names `.` and then what the path names
/// behind a `.` of its own.
pub proof fn lemma_names_behind_dot(p: Seq<char>)
    ensures
        names(seq!['.', '/'] + p) == seq![seq!['.']] + (if names(p).len() > 0 && names(p)[0]
            == seq!['.'] {
            names(p).skip(1)
        } else {
            names(p)
        }),
{
    let q = seq!['.', '/'] + p;
    assert(q[0] == '.' && q[1] == '/');
    text::lemma_find_from_is(q, '/', 0, 1);
    assert(q.subrange(0, 1) =~= seq!['.']);
    assert(spans_from(q, 0) == seq![(0int, 1int)] + spans_from(q, 2));
    assert(names(q) =~= seq![seq!['.']] + pieces(q, spans_from(q, 2)));
    if p.len() == 0 {
        assert(spans_from(q, 2) =~= Seq::<(int, int)>::empty());
        assert(spans_from(p, 0) =~= Seq::<(int, int)>::empty());
        assert(pieces(q, spans_from(q, 2)) =~= names(p));
    } else {
        assert(q.skip(2) =~= p.skip(0));
        lemma_find_from_same_tail(q, 2, p, 0, '/');
        text::lemma_find_from(p, '/', 0);
        text::lemma_find_from(q, '/', 2);
        let e = text::find_from(p, '/', 0);
        let f = text::find_from(q, '/', 2);
        assert(f == e + 2);
        assert(q.subrange(2, f) =~= p.subrange(0, e));
        if e < p.len() {
            assert(q.skip(f + 1) =~= p.skip(e + 1));
            lemma_same_tail(q, f + 1, p, e + 1);
        } else {
            assert(spans_from(p, e + 1) =~= Seq::<(int, int)>::empty());
            assert(spans_from(q, f + 1) =~= Seq::<(int, int)>::empty());
            assert(pieces(q, spans_from(q, f + 1)) =~= pieces(p, spans_from(p, e + 1)));
        }
        let tail = pieces(p, spans_from(p, e + 1));
        lemma_names(p);
        if e == 0 {
            assert(names(p) == tail);
            if names(p).len() > 0 {
                assert(is_absolute(p));
                assert(names(p)[0] != seq!['.']);
            }
            assert(pieces(q, spans_from(q, 2)) == names(p));
        } else {
            let head = p.subrange(0, e);
            assert(names(p) =~= seq![head] + tail);
            assert(names(p)[0] == head);
            if head == seq!['.'] {
                assert(names(p).skip(1) =~= tail);
                assert(pieces(q, spans_from(q, 2)) =~= tail);
            } else {
                assert(pieces(q, spans_from(q, 2)) =~= seq![head] + tail);
            }
        }
    }
}

/// Behind its first names, a path of ordinary pieces goes on with the others.
proof fn lemma_ordinary_skip(p: Seq<char>, i: int, n: int)
    requires
        0 <= i <= p.len(),
        ordinary_from(p, i),
        0 <= n < spans_from(p, i).len(),
    ensures
        i <= spans_from(p, i)[n].0 <= p.len(),
        ordinary_from(p, spans_from(p, i)[n].0),
        spans_from(p, spans_from(p, i)[n].0) == spans_from(p, i).skip(n),
    decreases n,
{
    text::lemma_find_from(p, '/', i);
    let e = text::find_from(p, '/', i);
    let at = spans_from(p, i);
    assert(ordinary(p.subrange(i, e)));
    assert(!unnamed(p, i, e));
    assert(at == seq![(i, e)] + spans_from(p, e + 1));
    if n == 0 {
        assert(at.skip(0) =~= at);
    } else {
        assert(e < p.len()) by {
            if e >= p.len() {
                assert(spans_from(p, e + 1) =~= Seq::<(int, int)>::empty());
            }
        }
        lemma_ordinary_skip(p, e + 1, n - 1);
        assert(at[n] == spans_from(p, e + 1)[n - 1]);
        assert(at.skip(n) =~= spans_from(p, e + 1).skip(n - 1));
    }
}

/// What is left of a path of ordinary pieces behind the components of another
/// are the names that follow them.
pub proof fn lemma_stripped_ordinary(p: Seq<char>, base: Seq<char>)
    requires
        ordinary_path(p),
        !is_absolute(base),
        names(base).is_prefix_of(names(p)),
    ensures
        stripped(p, base) == Some(
            text::joined(names(p).skip(names(base).len() as int), seq!['/']),
        ),
{
    let n = names(base).len() as int;
    let at = spans(p);
    lemma_ordinary_path(p);
    lemma_ordinary_end(p, 0);
    if n < at.len() {
        lemma_ordinary_skip(p, 0, n);
        let start = at[n].0;
        lemma_ordinary_from_names(p, start);
        assert(pieces(p, at.skip(n)) =~= names(p).skip(n));
        assert(p.subrange(start, p.len() as int) =~= p.skip(start));
    } else {
        assert(names(p).skip(n) =~= Seq::<Seq<char>>::empty());
    }
}

/// Joining a path of ordinary names onto a directory that is named gives the
/// components of the directory and then those names.
pub proof fn lemma_join_names(dir: Seq<char>, list: Seq<Seq<char>>)
    requires
        dir.len() > 0,
        forall|k: int| 0 <= k < list.len() ==> plain_name(#[trigger] list[k]),
    ensures
        components(path_join(dir, text::joined(list, seq!['/']))) == components(dir) + list,
    decreases list.len(),
{
    let rel = text::joined(list, seq!['/']);
    let all = path_join(dir, rel);
    if list.len() == 0 {
        if dir.last() == '/' {
            assert(all =~= dir);
        } else {
            assert(all =~= dir + seq!['/']);
            lemma_trailing_separator(dir);
        }
        assert(components(dir) + list =~= components(dir));
    } else if list.len() == 1 {
        assert(plain_name(list[0]));
        lemma_join_child(dir, list[0]);
        assert(components(dir) + list =~= components(dir).push(list[0]));
    } else {
        let front = list.drop_last();
        let name = list.last();
        assert(name == list[list.len() - 1]);
        assert(plain_name(name));
        assert forall|k: int| 0 <= k < front.len() implies plain_name(#[trigger] front[k]) by {
            assert(front[k] == list[k]);
        }
        lemma_join_names(dir, front);
        lemma_joined_names(front);
        lemma_joined_names(list);
        lemma_ordinary_end(text::joined(front, seq!['/']), 0);
        let head = text::joined(front, seq!['/']);
        let base = path_join(dir, head);
        assert(front.len() >= 1);
        lemma_ends_in_name(front);
        assert(base.last() == head.last());
        assert(all =~= base + seq!['/'] + name);
        assert(!is_absolute(name)) by {
            if is_absolute(name) {
                assert(name.contains(name[0]));
            }
        }
        assert(all == path_join(base, name));
        lemma_join_child(base, name);
        assert(components(dir) + list =~= (components(dir) + front).push(name));
    }
}

/// Names joined with separators end in no separator.
proof fn lemma_ends_in_name(list: Seq<Seq<char>>)
    requires
        list.len() > 0,
        forall|k: int| 0 <= k < list.len() ==> plain_name(#[trigger] list[k]),
    ensures
        text::joined(list, seq!['/']).len() > 0,
        text::joined(list, seq!['/']).last() != '/',
{
    let name = list.last();
    assert(name == list[list.len() - 1]);
    assert(plain_name(name));
    let rel = text::joined(list, seq!['/']);
    assert(rel.last() == name.last());
    if name.last() == '/' {
        assert(name.contains(name[name.len() - 1]));
    }
}

/// Behind a separator, a last piece is a name unless it is empty or `.`.
proof fn lemma_spans_last_piece(d: Seq<char>, q: Seq<char>, i: int)
    requires
        0 <= i <= d.len(),
        !q.contains('/'),
    ensures
        spans_from(d + seq!['/'] + q, i) == spans_from(d, i) + if q.len() == 0 || q == seq!['.'] {
            Seq::empty()
        } else {
            seq![(d.len() as int + 1, d.len() as int + 1 + q.len())]
        },
    decreases d.len() - i,
{
    let p = d + seq!['/'] + q;
    let start = d.len() as int + 1;
    let added = if q.len() == 0 || q == seq!['.'] {
        Seq::empty()
    } else {
        seq![(start, p.len() as int)]
    };
    text::lemma_find_from(d, '/', i);
    let e = text::find_from(d, '/', i);
    assert forall|j: int| i <= j < e implies p[j] != '/' by {
        assert(p[j] == d[j]);
    }
    assert(p[e] == '/');
    text::lemma_find_from_is(p, '/', i, e);
    assert(p.subrange(i, e) =~= d.subrange(i, e));
    assert(spans_from(p, start) == added) by {
        assert(p.skip(start) =~= q);
        text::lemma_find_from(p, '/', start);
        let f = text::find_from(p, '/', start);
        if f < p.len() {
            assert(q[f - start] == '/');
            assert(q.contains('/'));
        }
        assert(p.subrange(start, f) =~= q);
        assert(spans_from(p, f + 1) =~= Seq::<(int, int)>::empty());
        assert(spans_from(p, start) =~= added);
    }
    if e < d.len() {
        lemma_spans_last_piece(d, q, e + 1);
    } else {
        assert(spans_from(d, e + 1) =~= Seq::<(int, int)>::empty());
    }
    assert(spans_from(p, e + 1) =~= spans_from(d, e + 1) + added);
    assert(spans_from(d, d.len() as int) =~= Seq::<(int, int)>::empty());
    if i < d.len() {
        assert(spans_from(p, i) =~= spans_from(d, i) + added);
    } else {
        assert(spans_from(p, i) =~= added);
    }
}

/// A path names what stands between its separators. A text without a
/// separator names itself, unless it is empty, and one more piece behind a
/// separator is one more name, unless it is empty or `.`. The root counts as
/// a component where the path starts with a separator.
pub proof fn law_path_names_its_pieces(d: Seq<char>, q: Seq<char>)
    requires
        !q.contains('/'),
    ensures
        names(q) == if q.len() == 0 {
            Seq::<Seq<char>>::empty()
        } else {
            seq![q]
        },
        names(d + seq!['/'] + q) == if q.len() == 0 || q == seq!['.'] {
            names(d)
        } else {
            names(d).push(q)
        },
        components(q) == names(q),
        components(d) == if d.len() > 0 && d[0] == '/' {
            seq![seq!['/']] + names(d)
        } else {
            names(d)
        },
        names_without_dot(d) == if names(d).len() > 0 && names(d)[0] == seq!['.'] {
            names(d).skip(1)
        } else {
            names(d)
        },
{
    if q.len() > 0 {
        text::lemma_find_from(q, '/', 0);
        let e = text::find_from(q, '/', 0);
        if e < q.len() {
            assert(q.contains(q[e]));
        }
        assert(spans_from(q, e + 1) =~= Seq::<(int, int)>::empty());
        assert(spans(q) =~= seq![(0int, q.len() as int)]);
        assert(q.subrange(0, q.len() as int) =~= q);
        assert(names(q) =~= seq![q]);
        assert(q[0] != '/') by {
            assert(q.contains(q[0]));
        }
    } else {
        assert(names(q) =~= Seq::<Seq<char>>::empty());
    }
    let p = d + seq!['/'] + q;
    lemma_spans_last_piece(d, q, 0);
    lemma_spans_from(d, 0);
    let wanted = if q.len() == 0 || q == seq!['.'] {
        names(d)
    } else {
        names(d).push(q)
    };
    assert forall|k: int| 0 <= k < names(p).len() implies #[trigger] names(p)[k] == wanted[k] by {
        if k < names(d).len() {
            let span = spans_from(d, 0)[k];
            assert(spans_from(p, 0)[k] == span);
            assert(p.subrange(span.0, span.1) =~= d.subrange(span.0, span.1));
        } else {
            assert(p.subrange(d.len() as int + 1, p.len() as int) =~= q);
        }
    }
    assert(names(p) =~= wanted);
}

/// Lists of names joined one behind the other.
proof fn lemma_joined_concat(a: Seq<Seq<char>>, b: Seq<Seq<char>>, sep: Seq<char>)
    requires
        a.len() > 0,
        b.len() > 0,
    ensures
        text::joined(a + b, sep) == text::joined(a, sep) + sep + text::joined(b, sep),
    decreases b.len(),
{
    let all = a + b;
    assert(all.last() == b.last());
    if b.len() == 1 {
        assert(all.drop_last() =~= a);
    } else {
        lemma_joined_concat(a, b.drop_last(), sep);
        assert(all.drop_last() =~= a + b.drop_last());
        assert(text::joined(all, sep) =~= text::joined(a, sep) + sep + text::joined(b, sep));
    }
}

/// A path of ordinary pieces behind another is one too, and names what both
/// name.
pub proof fn lemma_ordinary_concat(base: Seq<char>, rel: Seq<char>)
    requires
        ordinary_path(base),
        ordinary_path(rel),
    ensures
        ordinary_path(base + seq!['/'] + rel),
        names(base + seq!['/'] + rel) == names(base) + names(rel),
{
    lemma_ordinary_path(base);
    lemma_ordinary_path(rel);
    let list = names(base) + names(rel);
    assert forall|k: int| 0 <= k < list.len() implies plain_name(#[trigger] list[k]) by {
        if k >= names(base).len() {
            assert(list[k] == names(rel)[k - names(base).len()]);
        }
    }
    lemma_joined_concat(names(base), names(rel), seq!['/']);
    lemma_joined_names(list);
}

/// What is left of a path below a directory is what stands behind the
/// directory and a separator, and a path elsewhere leaves nothing. The
/// directory itself leaves the empty path.
pub proof fn law_stripping_leaves_what_stands_behind(base: Seq<char>, rel: Seq<char>)
    requires
        ordinary_path(base),
        ordinary_path(rel),
    ensures
        stripped(base + seq!['/'] + rel, base) == Some(rel),
        stripped(base, base) == Some(Seq::<char>::empty()),
        lies_under(base + seq!['/'] + rel, base),
        stripped(rel, base) is Some <==> rel == base || (base + seq!['/']).is_prefix_of(rel),
        lies_under(rel, base) <==> rel == base || (base + seq!['/']).is_prefix_of(rel),
{
    let p = base + seq!['/'] + rel;
    lemma_ordinary_concat(base, rel);
    lemma_ordinary_path(base);
    lemma_ordinary_path(rel);
    lemma_ordinary_path(p);
    assert(names(base) =~= names(p).subrange(0, names(base).len() as int));
    lemma_stripped_ordinary(p, base);
    assert(names(p).skip(names(base).len() as int) =~= names(rel));
    assert(names(base) =~= names(base).subrange(0, names(base).len() as int));
    lemma_stripped_ordinary(base, base);
    assert(names(base).skip(names(base).len() as int) =~= Seq::<Seq<char>>::empty());
    lemma_under_ordinary(rel, base);
}

/// A path of ordinary pieces lies under another exactly when it is that path
/// or goes on behind it with a separator.
proof fn lemma_under_ordinary(p: Seq<char>, base: Seq<char>)
    requires
        ordinary_path(p),
        ordinary_path(base),
    ensures
        names(base).is_prefix_of(names(p)) <==> p == base || (base + seq!['/']).is_prefix_of(p),
{
    lemma_ordinary_path(base);
    lemma_ordinary_path(p);
    let n = names(base).len() as int;
    let front = base + seq!['/'];
    if names(base).is_prefix_of(names(p)) {
        let rest = names(p).skip(n);
        assert(names(p) =~= names(base) + rest);
        if rest.len() == 0 {
            assert(names(p) =~= names(base));
        } else {
            lemma_joined_concat(names(base), rest, seq!['/']);
            assert(p =~= base + seq!['/'] + text::joined(rest, seq!['/']));
            assert(front =~= p.subrange(0, front.len() as int));
        }
    }
    if p == base {
        assert(names(base) =~= names(p).subrange(0, n));
    } else if front.is_prefix_of(p) {
        let rel = p.skip(front.len() as int);
        assert(front =~= p.subrange(0, front.len() as int));
        assert(p =~= base + seq!['/'] + rel);
        lemma_ordinary_rest(base, rel);
        lemma_ordinary_concat(base, rel);
        assert(names(base) =~= names(p).subrange(0, n));
    }
}

/// What stands behind a separator in a path of ordinary pieces is one too.
pub proof fn lemma_ordinary_rest(base: Seq<char>, rel: Seq<char>)
    requires
        ordinary_path(base + seq!['/'] + rel),
    ensures
        ordinary_path(rel),
{
    let p = base + seq!['/'] + rel;
    lemma_ordinary_rest_from(p, base.len() as int, 0);
    let at = base.len() as int + 1;
    assert(p.skip(at) =~= rel);
    assert(rel.skip(0) =~= rel);
    lemma_ordinary_same_tail(p, at, rel, 0);
}

proof fn lemma_ordinary_rest_from(p: Seq<char>, at: int, i: int)
    requires
        0 <= i <= at < p.len(),
        p[at] == '/',
        ordinary_from(p, i),
    ensures
        ordinary_from(p, at + 1),
    decreases at - i,
{
    text::lemma_find_from(p, '/', i);
    let e = text::find_from(p, '/', i);
    assert(e <= at);
    if e < at {
        lemma_ordinary_rest_from(p, at, e + 1);
    }
}

/// The last piece of a path is its file name, unless it is `..`, and the rest
/// is the directory that it lies in. A name alone lies in the empty path.
pub proof fn law_path_is_directory_and_name(dir: Seq<char>, name: Seq<char>)
    requires
        name.len() > 0,
        !name.contains('/'),
        name != seq!['.'],
    ensures
        file_name_of(dir + seq!['/'] + name) == if name == seq!['.', '.'] {
            None
        } else {
            Some(name)
        },
        file_name_of(name) == file_name_of(dir + seq!['/'] + name),
        parent_of(name) == Some(Seq::<char>::empty()),
        parent_of(seq!['/'] + name) == Some(seq!['/']),
        ordinary_path(dir) ==> parent_of(dir + seq!['/'] + name) == Some(dir),
        ordinary_path(dir) ==> parent_of(seq!['/'] + dir + seq!['/'] + name) == Some(
            seq!['/'] + dir,
        ),
{
    law_path_names_its_pieces(dir, name);
    assert(names(dir + seq!['/'] + name).last() == name);
    assert(names(name).last() == name);
    assert(name[0] != '/') by {
        assert(name.contains(name[0]));
    }
    assert(spans(name).len() == names(name).len());
    let empty = Seq::<char>::empty();
    law_path_names_its_pieces(empty, name);
    assert(seq!['/'] + name =~= empty + seq!['/'] + name);
    assert(names(empty) =~= Seq::<Seq<char>>::empty());
    assert(spans(seq!['/'] + name).len() == 1);
    if ordinary_path(dir) {
        lemma_ordinary_end(dir, 0);
        lemma_spans_last_piece(dir, name, 0);
        let p = dir + seq!['/'] + name;
        assert(spans(p)[spans(p).len() - 2] == spans(dir).last());
        assert(p.take(dir.len() as int) =~= dir);
        let root = seq!['/'] + dir;
        let q = root + seq!['/'] + name;
        assert(root.skip(1) =~= dir);
        assert(dir.skip(0) =~= dir);
        lemma_ordinary_same_tail(dir, 0, root, 1);
        lemma_ordinary_end(root, 1);
        text::lemma_find_from_is(root, '/', 0, 0);
        assert(spans(root) == spans_from(root, 1));
        lemma_spans_last_piece(root, name, 0);
        assert(spans(q)[spans(q).len() - 2] == spans(root).last());
        assert(q.take(root.len() as int) =~= root);
    }
}

/// A name behind one other name lies in the directory of that name.
pub proof fn lemma_parent_of_two(dir: Seq<char>, name: Seq<char>)
    requires
        dir.len() > 0,
        !dir.contains('/'),
        name.len() > 0,
        !name.contains('/'),
        name != seq!['.'],
    ensures
        parent_of(dir + seq!['/'] + name) == Some(dir),
{
    let p = dir + seq!['/'] + name;
    law_path_names_its_pieces(dir, dir);
    lemma_spans_last_piece(dir, name, 0);
    text::lemma_find_from(dir, '/', 0);
    let e = text::find_from(dir, '/', 0);
    if e < dir.len() {
        assert(dir.contains(dir[e]));
    }
    assert(spans_from(dir, e + 1) =~= Seq::<(int, int)>::empty());
    assert(spans(dir) =~= seq![(0int, dir.len() as int)]);
    assert(spans(p)[spans(p).len() - 2] == (0int, dir.len() as int));
    assert(p.take(dir.len() as int) =~= dir);
}

/// Texts are ordered like words in a dictionary: a text sorts before another
/// that goes on behind it, and else the first character in which they differ
/// decides.
pub proof fn law_texts_sort_like_words(a: Seq<char>, b: Seq<char>)
    ensures
        text_before_from(a, b, 0) <==> (a != b && a.is_prefix_of(b)) || exists|i: int|
            0 <= i < a.len() && i < b.len() && #[trigger] a.take(i) == b.take(i) && a[i] < b[i],
{
    assert(a.take(0) =~= b.take(0));
    lemma_text_before(a, b, 0);
    if a != b && a.is_prefix_of(b) {
        assert(a =~= b.subrange(0, a.len() as int));
        assert(a.len() < b.len()) by {
            if a.len() == b.len() {
                assert(a =~= b);
            }
        }
        assert(b.take(a.len() as int) =~= a);
        assert(a.take(a.len() as int) =~= a);
    }
    if text_before_from(a, b, 0) {
        let i = choose|i: int|
            {
                &&& 0 <= i <= a.len()
                &&& i < b.len()
                &&& #[trigger] a.take(i) == b.take(i)
                &&& i == a.len() || a[i] < b[i]
            };
        if i == a.len() {
            assert(a.take(i) =~= a);
            assert(a =~= b.subrange(0, i));
        }
    }
}

proof fn lemma_text_before(a: Seq<char>, b: Seq<char>, k: int)
    requires
        0 <= k <= a.len(),
        k <= b.len(),
        a.take(k) == b.take(k),
    ensures
        text_before_from(a, b, k) <==> exists|i: int|
            {
                &&& k <= i <= a.len()
                &&& i < b.len()
                &&& #[trigger] a.take(i) == b.take(i)
                &&& i == a.len() || a[i] < b[i]
            },
    decreases b.len() - k,
{
    if k < a.len() && k < b.len() && a[k] == b[k] {
        assert(a.take(k + 1) =~= a.take(k).push(a[k]));
        assert(b.take(k + 1) =~= b.take(k).push(b[k]));
        lemma_text_before(a, b, k + 1);
        if exists|i: int|
            {
                &&& k <= i <= a.len()
                &&& i < b.len()
                &&& #[trigger] a.take(i) == b.take(i)
                &&& i == a.len() || a[i] < b[i]
            } {
            let i = choose|i: int|
                {
                    &&& k <= i <= a.len()
                    &&& i < b.len()
                    &&& #[trigger] a.take(i) == b.take(i)
                    &&& i == a.len() || a[i] < b[i]
                };
            assert(i != k);
            assert(k + 1 <= i);
        }
    } else if k < a.len() && k < b.len() {
        if exists|i: int|
            {
                &&& k <= i <= a.len()
                &&& i < b.len()
                &&& #[trigger] a.take(i) == b.take(i)
                &&& i == a.len() || a[i] < b[i]
            } {
            let i = choose|i: int|
                {
                    &&& k <= i <= a.len()
                    &&& i < b.len()
                    &&& #[trigger] a.take(i) == b.take(i)
                    &&& i == a.len() || a[i] < b[i]
                };
            if i > k {
                assert(a.take(i)[k] == b.take(i)[k]);
            }
        }
    }
}

/// Paths are ordered component by component: a directory sorts before what
/// lies below it, and else the first component in which they differ decides,
/// names among each other like texts.
pub proof fn law_paths_sort_by_component(a: Seq<char>, b: Seq<char>)
    ensures
        path_before(a, b) <==> (components(a) != components(b) && components(a).is_prefix_of(
            components(b),
        )) || exists|i: int|
            {
                &&& 0 <= i < components(a).len()
                &&& i < components(b).len()
                &&& #[trigger] components(a).take(i) == components(b).take(i)
                &&& components(a)[i] != components(b)[i]
                &&& component_before(components(a)[i], components(b)[i])
            },
        plain_name(a) && plain_name(b) ==> (component_before(a, b) <==> text_before_from(a, b, 0)),
        plain_name(a) ==> component_before(seq!['.', '.'], a),
        component_before(seq!['/'], seq!['.']),
        component_before(seq!['.'], seq!['.', '.']),
{
    let x = components(a);
    let y = components(b);
    assert(x.take(0) =~= y.take(0));
    lemma_components_before(x, y, 0);
    if x != y && x.is_prefix_of(y) {
        assert(x =~= y.subrange(0, x.len() as int));
        assert(x.len() < y.len()) by {
            if x.len() == y.len() {
                assert(x =~= y);
            }
        }
        assert(y.take(x.len() as int) =~= x);
        assert(x.take(x.len() as int) =~= x);
    }
    if path_before(a, b) {
        let i = choose|i: int|
            {
                &&& 0 <= i <= x.len()
                &&& i < y.len()
                &&& #[trigger] x.take(i) == y.take(i)
                &&& i == x.len() || (x[i] != y[i] && component_before(x[i], y[i]))
            };
        if i == x.len() {
            assert(x.take(i) =~= x);
            assert(x =~= y.subrange(0, i));
        }
    }
    if plain_name(a) {
        assert(a != seq!['/']) by {
            if a == seq!['/'] {
                assert(a[0] == '/');
                assert(a.contains('/'));
            }
        }
    }
    if plain_name(b) {
        assert(b != seq!['/']) by {
            if b == seq!['/'] {
                assert(b[0] == '/');
                assert(b.contains('/'));
            }
        }
    }
    assert(seq!['.'] != seq!['/']) by {
        assert(seq!['.'][0] == '.');
        assert(seq!['/'][0] == '/');
    }
    assert(seq!['.', '.'].len() == 2);
}

proof fn lemma_components_before(x: Seq<Seq<char>>, y: Seq<Seq<char>>, k: int)
    requires
        0 <= k <= x.len(),
        k <= y.len(),
        x.take(k) == y.take(k),
    ensures
        components_before_from(x, y, k) <==> exists|i: int|
            {
                &&& k <= i <= x.len()
                &&& i < y.len()
                &&& #[trigger] x.take(i) == y.take(i)
                &&& i == x.len() || (x[i] != y[i] && component_before(x[i], y[i]))
            },
    decreases y.len() - k,
{
    if k < x.len() && k < y.len() && x[k] == y[k] {
        assert(x.take(k + 1) =~= x.take(k).push(x[k]));
        assert(y.take(k + 1) =~= y.take(k).push(y[k]));
        lemma_components_before(x, y, k + 1);
        if exists|i: int|
            {
                &&& k <= i <= x.len()
                &&& i < y.len()
                &&& #[trigger] x.take(i) == y.take(i)
                &&& i == x.len() || (x[i] != y[i] && component_before(x[i], y[i]))
            } {
            let i = choose|i: int|
                {
                    &&& k <= i <= x.len()
                    &&& i < y.len()
                    &&& #[trigger] x.take(i) == y.take(i)
                    &&& i == x.len() || (x[i] != y[i] && component_before(x[i], y[i]))
                };
            assert(k + 1 <= i);
        }
    } else if k < x.len() && k < y.len() {
        if exists|i: int|
            {
                &&& k <= i <= x.len()
                &&& i < y.len()
                &&& #[trigger] x.take(i) == y.take(i)
                &&& i == x.len() || (x[i] != y[i] && component_before(x[i], y[i]))
            } {
            let i = choose|i: int|
                {
                    &&& k <= i <= x.len()
                    &&& i < y.len()
                    &&& #[trigger] x.take(i) == y.take(i)
                    &&& i == x.len() || (x[i] != y[i] && component_before(x[i], y[i]))
                };
            if i > k {
                assert(x.take(i)[k] == y.take(i)[k]);
            }
        }
    }
}

/// A path below a directory is written behind it with one separator between
/// them, and an absolute path stays as it is.
pub proof fn law_joining_puts_a_path_below(dir: Seq<char>, rel: Seq<char>)
    requires
        rel.len() > 0,
    ensures
        rel[0] == '/' ==> path_join(dir, rel) == rel,
        rel[0] != '/' && dir.len() == 0 ==> path_join(dir, rel) == rel,
        rel[0] != '/' && dir.len() > 0 && dir.last() != '/' ==> path_join(dir, rel) == dir + seq![
            '/',
        ] + rel,
        rel[0] != '/' && dir.len() > 0 && dir.last() == '/' ==> path_join(dir, rel) == dir + rel,
{
    if dir.len() == 0 {
        assert(dir + rel =~= rel);
    }
}

/// A path is ordinary exactly when it is a name, or an ordinary path behind
/// which a separator and a name stand. A name is not empty, is neither `.`
/// nor `..`, and holds no separator.
pub proof fn law_ordinary_paths_are_names_between_separators(d: Seq<char>, q: Seq<char>)
    requires
        !q.contains('/'),
    ensures
        ordinary_path(q) <==> q.len() > 0 && q != seq!['.'] && q != seq!['.', '.'],
        ordinary_path(d + seq!['/'] + q) <==> ordinary_path(d) && ordinary_path(q),
{
    text::lemma_find_from(q, '/', 0);
    let e = text::find_from(q, '/', 0);
    if e < q.len() {
        assert(q.contains(q[e]));
    }
    assert(q.subrange(0, q.len() as int) =~= q);
    let p = d + seq!['/'] + q;
    if ordinary_path(d) && ordinary_path(q) {
        lemma_ordinary_concat(d, q);
    }
    if ordinary_path(p) {
        lemma_ordinary_rest(d, q);
        lemma_ordinary_front(d, q, 0);
    }
}

proof fn lemma_ordinary_front(d: Seq<char>, q: Seq<char>, i: int)
    requires
        0 <= i <= d.len(),
        ordinary_from(d + seq!['/'] + q, i),
    ensures
        ordinary_from(d, i),
    decreases d.len() - i,
{
    let p = d + seq!['/'] + q;
    text::lemma_find_from(d, '/', i);
    let e = text::find_from(d, '/', i);
    assert forall|j: int| i <= j < e implies p[j] != '/' by {
        assert(p[j] == d[j]);
    }
    assert(p[e] == '/');
    text::lemma_find_from_is(p, '/', i, e);
    assert(p.subrange(i, e) =~= d.subrange(i, e));
    if e < d.len() {
        lemma_ordinary_front(d, q, e + 1);
    }
}

/// Cut behind one of its names, a path names what it named up to there.
proof fn lemma_cut_behind(p: Seq<char>, i: int, k: int)
    requires
        0 <= i,
        0 <= k < spans_from(p, i).len(),
    ensures
        i < spans_from(p, i)[k].1 <= p.len(),
        spans_from(p.take(spans_from(p, i)[k].1), i) == spans_from(p, i).take(k + 1),
    decreases p.len() + 1 - i,
{
    let at = spans_from(p, i);
    let e = at[k].1;
    lemma_spans_from(p, i);
    let q = p.take(e);
    text::lemma_find_from(p, '/', i);
    let f = text::find_from(p, '/', i);
    if unnamed(p, i, f) {
        lemma_cut_behind(p, f + 1, k);
        assert(f < e);
        assert forall|j: int| i <= j < f implies q[j] != '/' by {
            assert(q[j] == p[j]);
        }
        assert(q[f] == '/') by {
            assert(p[f] == '/');
        }
        text::lemma_find_from_is(q, '/', i, f);
        assert(q.subrange(i, f) =~= p.subrange(i, f));
        assert(spans_from(q, i) == spans_from(q, f + 1));
    } else {
        assert(at[0] == (i, f));
        if k == 0 {
            assert(e == f);
            text::lemma_find_from(q, '/', i);
            let g = text::find_from(q, '/', i);
            if g < q.len() {
                assert(p[g] == '/');
            }
            assert(g == f);
            assert(q.subrange(i, f) =~= p.subrange(i, f));
            assert(spans_from(q, f + 1) =~= Seq::<(int, int)>::empty());
            assert(spans_from(q, i) =~= at.take(1));
        } else {
            let rest = spans_from(p, f + 1);
            assert(at =~= seq![(i, f)] + rest);
            assert(rest[k - 1] == at[k]);
            lemma_cut_behind(p, f + 1, k - 1);
            assert(f < e);
            assert forall|j: int| i <= j < f implies q[j] != '/' by {
                assert(q[j] == p[j]);
            }
            assert(q[f] == '/') by {
                assert(p[f] == '/');
            }
            text::lemma_find_from_is(q, '/', i, f);
            assert(q.subrange(i, f) =~= p.subrange(i, f));
            assert(spans_from(q, i) =~= seq![(i, f)] + spans_from(q, f + 1));
            assert(at.take(k + 1) =~= seq![(i, f)] + rest.take(k));
        }
    }
}

/// From the place of one of its names on, a path names that name and those
/// behind it.
proof fn lemma_spans_skip(p: Seq<char>, i: int, n: int)
    requires
        0 <= i,
        0 <= n < spans_from(p, i).len(),
    ensures
        i <= spans_from(p, i)[n].0 < p.len(),
        spans_from(p, spans_from(p, i)[n].0) == spans_from(p, i).skip(n),
    decreases p.len() + 1 - i,
{
    let at = spans_from(p, i);
    lemma_spans_from(p, i);
    text::lemma_find_from(p, '/', i);
    let f = text::find_from(p, '/', i);
    if unnamed(p, i, f) {
        lemma_spans_skip(p, f + 1, n);
    } else if n == 0 {
        assert(at[0].0 == i);
        assert(at.skip(0) =~= at);
    } else {
        let rest = spans_from(p, f + 1);
        assert(at =~= seq![(i, f)] + rest);
        assert(at[n] == rest[n - 1]);
        lemma_spans_skip(p, f + 1, n - 1);
        assert(at.skip(n) =~= rest.skip(n - 1));
    }
}

/// A path cut in front of one of its names names that name and those behind
/// it.
proof fn lemma_cut_before(p: Seq<char>, n: int)
    requires
        0 <= n < spans(p).len(),
    ensures
        0 <= spans(p)[n].0 < p.len(),
        names(p.skip(spans(p)[n].0)) == names(p).skip(n),
        !is_absolute(p.skip(spans(p)[n].0)),
{
    lemma_spans_skip(p, 0, n);
    lemma_spans_from(p, 0);
    let at = spans(p);
    let s = at[n].0;
    let q = p.skip(s);
    assert(pieces(p, spans_from(p, s)) =~= names(p).skip(n));
    text::lemma_find_from(p, '/', s);
    let f = text::find_from(p, '/', s);
    let behind = spans_from(p, s);
    assert(behind =~= at.skip(n));
    assert(behind[0] == at[n]);
    assert(!unnamed(p, s, f)) by {
        if unnamed(p, s, f) {
            lemma_spans_from(p, f + 1);
            assert(behind == spans_from(p, f + 1));
            assert(spans_from(p, f + 1)[0].0 >= f + 1);
            assert(false);
        }
    }
    assert(q[0] == p[s]);
    assert(p[s] != '/');
    if s == 0 {
        assert(q =~= p);
    } else {
        assert(q.skip(0) =~= p.skip(s));
        lemma_find_from_same_tail(p, s, q, 0, '/');
        let g = text::find_from(q, '/', 0);
        assert(g == f - s);
        assert(q.subrange(0, g) =~= p.subrange(s, f));
        let rest = pieces(q, spans_from(q, g + 1));
        assert(pieces(p, spans_from(p, f + 1)) == rest) by {
            if f < p.len() {
                assert(p.skip(f + 1) =~= q.skip(g + 1));
                lemma_same_tail(p, f + 1, q, g + 1);
            } else {
                assert(spans_from(p, f + 1) =~= Seq::<(int, int)>::empty());
                assert(spans_from(q, g + 1) =~= Seq::<(int, int)>::empty());
            }
        }
        assert(spans_from(q, 0) =~= seq![(0int, g)] + spans_from(q, g + 1));
        assert(behind =~= seq![(s, f)] + spans_from(p, f + 1));
        assert(names(q) =~= seq![q.subrange(0, g)] + rest);
        assert(pieces(p, behind) =~= seq![p.subrange(s, f)] + pieces(p, spans_from(p, f + 1)));
        assert(names(q) =~= names(p).skip(n));
    }
}

/// However paths are written, one leaves something behind another exactly when
/// it begins with the components of the other, and what it leaves is the rest
/// of what it names. An empty path takes nothing away.
pub proof fn law_stripping_leaves_the_other_names(p: Seq<char>, base: Seq<char>)
    ensures
        stripped(p, base) is Some <==> components(base).is_prefix_of(components(p)),
        stripped(p, base) matches Some(rel) ==> {
            ||| names(rel) == names(p).skip(names(base).len() as int) && !is_absolute(rel)
            ||| base.len() == 0 && is_absolute(p) && names(rel) == names(p) && is_absolute(rel)
        },
{
    let at = spans(p);
    let n = names(base).len() as int;
    lemma_spans_from(p, 0);
    if let Some(rel) = stripped(p, base) {
        if base.len() == 0 {
            assert(names(base) =~= Seq::<Seq<char>>::empty());
        }
        assert(n <= names(p).len()) by {
            let front = components(p).subrange(0, components(base).len() as int);
            assert(components(base) == front);
            lemma_names(p);
            lemma_names(base);
            if is_absolute(base) && !is_absolute(p) {
                assert(components(base)[0] == front[0]);
                assert(names(p)[0] == seq!['/']);
                assert(names(p)[0][0] == '/');
                assert(names(p)[0].contains('/'));
            }
            if !is_absolute(base) && is_absolute(p) && n > 0 {
                assert(components(base)[0] == front[0]);
                assert(names(base)[0] == seq!['/']);
                assert(names(base)[0][0] == '/');
                assert(names(base)[0].contains('/'));
            }
        }
        if base.len() == 0 && is_absolute(p) {
            if at.len() == 0 {
                assert(rel.len() == 1);
                assert(rel[0] == '/');
                text::lemma_find_from_is(rel, '/', 0, 0);
                assert(spans_from(rel, 1) =~= Seq::<(int, int)>::empty());
                assert(spans(rel) =~= Seq::<(int, int)>::empty());
                assert(names(rel) =~= names(p));
            } else {
                lemma_cut_behind(p, 0, at.len() - 1);
                assert(at.take(at.len() as int) =~= at);
                assert(rel[0] == p[0]);
                lemma_pieces_cut(p, at.last().1);
            }
        } else if n >= at.len() {
            assert(names(rel) =~= Seq::<Seq<char>>::empty());
            assert(names(p).skip(n) =~= Seq::<Seq<char>>::empty());
        } else {
            let e = at.last().1;
            lemma_cut_behind(p, 0, at.len() - 1);
            assert(at.take(at.len() as int) =~= at);
            lemma_pieces_cut(p, e);
            let q = p.take(e);
            assert(spans(q) == at);
            lemma_cut_before(q, n);
            assert(rel =~= q.skip(at[n].0));
        }
    }
}

/// What a path names stands before the end of its last name.
proof fn lemma_pieces_cut(p: Seq<char>, e: int)
    requires
        0 <= e <= p.len(),
        spans(p.take(e)) == spans(p),
    ensures
        names(p.take(e)) == names(p),
{
    let q = p.take(e);
    lemma_spans_from(q, 0);
    assert forall|k: int| 0 <= k < names(p).len() implies #[trigger] names(q)[k] == names(p)[k] by {
        let span = spans(q)[k];
        assert(q.subrange(span.0, span.1) =~= p.subrange(span.0, span.1));
    }
    assert(names(q) =~= names(p));
}

/// However a path is written, the directory that it lies in has all of its
/// components but the last, and a path has one exactly when it names
/// something.
pub proof fn law_parent_has_all_but_the_last_name(p: Seq<char>)
    ensures
        parent_of(p) is Some <==> names(p).len() > 0,
        parent_of(p) matches Some(dir) ==> components(dir) == components(p).drop_last(),
{
    let at = spans(p);
    lemma_spans_from(p, 0);
    if at.len() == 1 {
        let dir = parent_of(p)->0;
        if is_absolute(p) {
            text::lemma_find_from_is(dir, '/', 0, 0);
            assert(spans_from(dir, 1) =~= Seq::<(int, int)>::empty());
            assert(spans(dir) =~= Seq::<(int, int)>::empty());
            assert(names(dir) =~= Seq::<Seq<char>>::empty());
            assert(components(dir) =~= components(p).drop_last());
        } else {
            assert(names(dir) =~= Seq::<Seq<char>>::empty());
            assert(components(dir) =~= components(p).drop_last());
        }
    } else if at.len() > 1 {
        let k = at.len() - 2;
        let e = at[k].1;
        let dir = p.take(e);
        lemma_cut_behind(p, 0, k);
        lemma_spans_from(dir, 0);
        assert(names(dir) =~= names(p).drop_last()) by {
            assert forall|j: int| 0 <= j < names(dir).len() implies #[trigger] names(dir)[j]
                == names(p)[j] by {
                let span = spans(dir)[j];
                assert(spans(p)[j] == span);
                assert(dir.subrange(span.0, span.1) =~= p.subrange(span.0, span.1));
            }
        }
        assert(dir[0] == p[0]);
        assert(components(dir) =~= components(p).drop_last());
    }
}

} // verus!
