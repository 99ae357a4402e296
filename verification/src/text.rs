//! Text as a sequence of characters: the few operations on strings that the
//! rest of the crate is written in, each with the sequence it produces.

use vstd::prelude::*;

verus! {

/// The text of each string of a list.
pub open spec fn texts(list: Seq<String>) -> Seq<Seq<char>> {
    list.map_values(|s: String| s@)
}

/// The text of an optional string.
pub open spec fn opt_text(s: Option<String>) -> Option<Seq<char>> {
    match s {
        Some(s) => Some(s@),
        None => None,
    }
}

/// The text of a string, or of the message that stands in its place.
pub open spec fn result_text(r: Result<String, String>) -> Result<Seq<char>, Seq<char>> {
    match r {
        Ok(s) => Ok(s@),
        Err(e) => Err(e@),
    }
}

/// The parts one after the other, with `sep` between neighbours.
pub open spec fn joined(parts: Seq<Seq<char>>, sep: Seq<char>) -> Seq<char>
    decreases parts.len(),
{
    if parts.len() == 0 {
        Seq::empty()
    } else if parts.len() == 1 {
        parts[0]
    } else {
        joined(parts.drop_last(), sep) + sep + parts.last()
    }
}

/// `needle` stands in `s` at position `i`.
pub open spec fn occurs_at(needle: Seq<char>, s: Seq<char>, i: int) -> bool {
    &&& 0 <= i
    &&& i + needle.len() <= s.len()
    &&& s.subrange(i, i + needle.len()) == needle
}

/// `needle` stands somewhere in `s`.
pub open spec fn occurs_in(needle: Seq<char>, s: Seq<char>) -> bool {
    exists|i: int| occurs_at(needle, s, i)
}

/// The first position at or after `i` that holds `c`, or the length of `s`.
pub open spec fn find_from(s: Seq<char>, c: char, i: int) -> int
    decreases s.len() - i,
{
    if i >= s.len() {
        s.len() as int
    } else if s[i] == c {
        i
    } else {
        find_from(s, c, i + 1)
    }
}

/// `s` without one carriage return at its end.
pub open spec fn without_cr(s: Seq<char>) -> Seq<char> {
    if s.len() > 0 && s.last() == '\r' {
        s.drop_last()
    } else {
        s
    }
}

/// The lines of `s`. A line ends at a line feed, and a carriage return right
/// before that line feed belongs to the ending. An empty last line does not
/// count.
pub open spec fn lines_of(s: Seq<char>) -> Seq<Seq<char>>
    decreases s.len(),
{
    let k = find_from(s, '\n', 0);
    if s.len() == 0 {
        Seq::empty()
    } else if !(0 <= k < s.len()) {
        seq![s]
    } else {
        seq![without_cr(s.take(k))] + lines_of(s.skip(k + 1))
    }
}

/// The Unicode `White_Space` property.
pub open spec fn white_space(c: char) -> bool {
    ||| '\u{9}' <= c <= '\u{d}'
    ||| c == ' '
    ||| c == '\u{85}'
    ||| c == '\u{a0}'
    ||| c == '\u{1680}'
    ||| '\u{2000}' <= c <= '\u{200a}'
    ||| c == '\u{2028}'
    ||| c == '\u{2029}'
    ||| c == '\u{202f}'
    ||| c == '\u{205f}'
    ||| c == '\u{3000}'
}

/// `s` from its first character that is not white space on.
pub open spec fn trimmed_start(s: Seq<char>) -> Seq<char>
    decreases s.len(),
{
    if s.len() > 0 && white_space(s[0]) {
        trimmed_start(s.drop_first())
    } else {
        s
    }
}

/// `s` up to its last character that is not white space.
pub open spec fn trimmed_end(s: Seq<char>) -> Seq<char>
    decreases s.len(),
{
    if s.len() > 0 && white_space(s.last()) {
        trimmed_end(s.drop_last())
    } else {
        s
    }
}

/// `s` without the white space at either end.
pub open spec fn trimmed(s: Seq<char>) -> Seq<char> {
    trimmed_end(trimmed_start(s))
}

/// `s` from its first character that is not `c` on.
pub open spec fn without_leading(s: Seq<char>, c: char) -> Seq<char>
    decreases s.len(),
{
    if s.len() > 0 && s[0] == c {
        without_leading(s.drop_first(), c)
    } else {
        s
    }
}

/// `s` with every `from` replaced by `to`.
pub open spec fn replaced(s: Seq<char>, from: char, to: char) -> Seq<char> {
    s.map_values(|c: char| if c == from { to } else { c })
}

/// The decimal digit `d`.
pub open spec fn digit(d: int) -> char {
    ('0' as u32 + d) as char
}

/// `n` in decimal.
pub open spec fn decimal(n: nat) -> Seq<char>
    decreases n,
{
    if n < 10 {
        seq![digit(n as int)]
    } else {
        decimal(n / 10).push(digit((n % 10) as int))
    }
}

/// `s` followed by as many spaces as it is short of `width` characters.
pub open spec fn padded(s: Seq<char>, width: nat) -> Seq<char>
    decreases width - s.len(),
{
    if s.len() >= width {
        s
    } else {
        padded(s.push(' '), width)
    }
}

/// Appends one character: `String::push`, which is documented to append the
/// given character to the end of the string.
#[verifier::external_body]
pub(crate) fn push_char(s: &mut String, c: char)
    ensures
        final(s)@ == old(s)@.push(c),
{
    s.push(c);
}

/// `s` with the characters escaped that do not print as themselves: the text
/// of `str::escape_debug`.
pub uninterp spec fn escaped(s: Seq<char>) -> Seq<char>;

/// `str::escape_debug` collected into a string. Its text is a function of `s`
/// alone, and is named [`escaped`].
#[verifier::external_body]
pub(crate) fn escape_debug(s: &str) -> (out: String)
    ensures
        out@ == escaped(s@),
{
    s.escape_debug().to_string()
}

/// What the error of `String::from_utf8` says of bytes that are not valid
/// UTF-8.
pub uninterp spec fn utf8_complaint(bytes: Seq<u8>) -> Seq<char>;

/// The text that `bytes` encode, by `String::from_utf8`: an error exactly
/// where they are not valid UTF-8, with a message that is a function of the
/// bytes.
#[verifier::external_body]
pub(crate) fn utf8_text(bytes: &[u8]) -> (r: Result<String, String>)
    ensures
        r is Ok <==> vstd::utf8::valid_utf8(bytes@),
        r matches Ok(s) ==> s@ == vstd::utf8::decode_utf8(bytes@),
        r matches Err(e) ==> e@ == utf8_complaint(bytes@),
{
    String::from_utf8(bytes.to_vec()).map_err(|e| e.to_string())
}

/// What `String::from_utf8_lossy` makes of bytes: the text they encode, with
/// a replacement character for what is not valid UTF-8.
pub uninterp spec fn lossy_decoded(bytes: Seq<u8>) -> Seq<char>;

/// The text of `bytes` by `String::from_utf8_lossy`. Valid UTF-8 is decoded
/// as it stands; how many replacement characters stand for a run of invalid
/// bytes is left to the name.
#[verifier::external_body]
pub(crate) fn lossy_text(bytes: &[u8]) -> (out: String)
    ensures
        out@ == lossy_decoded(bytes@),
        vstd::utf8::valid_utf8(bytes@) ==> out@ == vstd::utf8::decode_utf8(bytes@),
{
    String::from_utf8_lossy(bytes).into_owned()
}

/// The characters of `s`, in order.
pub fn chars_of(s: &str) -> (out: Vec<char>)
    ensures
        out@ == s@,
{
    let mut out: Vec<char> = Vec::new();
    for c in iter: s.chars()
        invariant
            out@ == iter.seq().take(iter.index() as int),
            iter.seq() == s@,
    {
        out.push(c);
    }
    out
}

/// Whether two strings hold the same text.
pub fn same_text(a: &str, b: &str) -> (r: bool)
    ensures
        r == (a@ == b@),
{
    a.to_owned() == b.to_owned()
}

/// Whether `chars` begins with `prefix`.
pub fn chars_start_with(chars: &[char], prefix: &[char]) -> (r: bool)
    ensures
        r == prefix@.is_prefix_of(chars@),
{
    if chars.len() < prefix.len() {
        return false;
    }
    for i in 0..prefix.len()
        invariant
            prefix@.len() <= chars@.len(),
            forall|j: int| 0 <= j < i ==> prefix@[j] == chars@[j],
    {
        if chars[i] != prefix[i] {
            assert(prefix@[i as int] != chars@.subrange(0, prefix@.len() as int)[i as int]);
            return false;
        }
    }
    assert(prefix@ =~= chars@.subrange(0, prefix@.len() as int));
    true
}

/// Whether `s` begins with `prefix`.
pub fn starts_with(s: &str, prefix: &str) -> (r: bool)
    ensures
        r == prefix@.is_prefix_of(s@),
{
    let chars = chars_of(s);
    let prefix_chars = chars_of(prefix);
    chars_start_with(&chars, &prefix_chars)
}

/// Whether `s` ends with `suffix`.
pub fn ends_with(s: &str, suffix: &str) -> (r: bool)
    ensures
        r == suffix@.is_suffix_of(s@),
{
    let chars = chars_of(s);
    let suffix_chars = chars_of(suffix);
    if chars.len() < suffix_chars.len() {
        return false;
    }
    let start: usize = chars.len() - suffix_chars.len();
    for i in 0..suffix_chars.len()
        invariant
            chars@ == s@,
            suffix_chars@ == suffix@,
            start + suffix_chars.len() == chars.len(),
            forall|j: int| 0 <= j < i ==> suffix@[j] == s@[start + j],
    {
        if chars[start + i] != suffix_chars[i] {
            assert(suffix@[i as int] != s@.subrange(start as int, s@.len() as int)[i as int]);
            return false;
        }
    }
    assert(suffix@ =~= s@.subrange(start as int, s@.len() as int));
    true
}

/// Whether `needle` stands somewhere in `s`.
pub fn contains_text(s: &str, needle: &str) -> (r: bool)
    ensures
        r == occurs_in(needle@, s@),
{
    let chars = chars_of(s);
    let wanted = chars_of(needle);
    if chars.len() < wanted.len() {
        return false;
    }
    let last: usize = chars.len() - wanted.len();
    let mut i: usize = 0;
    while i <= last
        invariant
            chars@ == s@,
            wanted@ == needle@,
            last + needle@.len() == s@.len(),
            i <= last + 1,
            forall|j: int| 0 <= j < i ==> !occurs_at(needle@, s@, j),
        decreases last + 1 - i,
    {
        let mut same = true;
        for k in 0..wanted.len()
            invariant
                chars@ == s@,
                wanted@ == needle@,
                i <= last,
                last + wanted.len() == chars.len(),
                same == (forall|j: int| 0 <= j < k ==> s@[i + j] == needle@[j]),
        {
            if chars[i + k] != wanted[k] {
                same = false;
            }
        }
        if same {
            assert(s@.subrange(i as int, i + needle@.len()) =~= needle@);
            assert(occurs_at(needle@, s@, i as int));
            return true;
        }
        proof {
            if occurs_at(needle@, s@, i as int) {
                assert forall|j: int| 0 <= j < needle@.len() implies s@[i + j] == needle@[j] by {
                    assert(s@.subrange(i as int, i + needle@.len())[j] == needle@[j]);
                }
            }
        }
        if i == last {
            return false;
        }
        i = i + 1;
    }
    false
}

/// The parts one after the other, with `sep` between neighbours.
pub fn join(parts: &[String], sep: &str) -> (out: String)
    ensures
        out@ == joined(texts(parts@), sep@),
{
    let mut out = String::new();
    for i in 0..parts.len()
        invariant
            out@ == joined(texts(parts@).take(i as int), sep@),
    {
        if i > 0 {
            out.append(sep);
        }
        out.append(parts[i].as_str());
        proof {
            let now = texts(parts@).take(i + 1);
            assert(now.drop_last() =~= texts(parts@).take(i as int));
            assert(now.last() == parts@[i as int]@);
            assert(out@ =~= joined(now, sep@));
        }
    }
    assert(texts(parts@).take(parts@.len() as int) =~= texts(parts@));
    out
}

/// The first position at or after `i` that holds `c`, or the length.
pub fn find_char(chars: &[char], c: char, i: usize) -> (r: usize)
    requires
        i <= chars@.len(),
    ensures
        r == find_from(chars@, c, i as int),
        i <= r <= chars@.len(),
{
    let mut k: usize = i;
    while k < chars.len() && chars[k] != c
        invariant
            i <= k <= chars@.len(),
            find_from(chars@, c, i as int) == find_from(chars@, c, k as int),
        decreases chars@.len() - k,
    {
        k = k + 1;
    }
    k
}

/// Where [`find_from`] stops: nothing before that position is `c`.
pub proof fn lemma_find_from(s: Seq<char>, c: char, i: int)
    requires
        0 <= i <= s.len(),
    ensures
        i <= find_from(s, c, i) <= s.len(),
        find_from(s, c, i) < s.len() ==> s[find_from(s, c, i)] == c,
        forall|j: int| i <= j < find_from(s, c, i) ==> s[j] != c,
    decreases s.len() - i,
{
    if i < s.len() && s[i] != c {
        lemma_find_from(s, c, i + 1);
    }
}

/// Position `k` is where [`find_from`] stops when it is the first that holds
/// `c`.
pub proof fn lemma_find_from_is(s: Seq<char>, c: char, i: int, k: int)
    requires
        0 <= i <= k < s.len(),
        s[k] == c,
        forall|j: int| i <= j < k ==> s[j] != c,
    ensures
        find_from(s, c, i) == k,
    decreases k - i,
{
    if i < k {
        lemma_find_from_is(s, c, i + 1, k);
    }
}

/// Looking in a suffix is looking from its start.
proof fn lemma_find_from_skip(s: Seq<char>, c: char, start: int, i: int)
    requires
        0 <= start,
        0 <= i,
        start + i <= s.len(),
    ensures
        find_from(s.skip(start), c, i) + start == find_from(s, c, start + i),
    decreases s.len() - start - i,
{
    if start + i < s.len() && s[start + i] != c {
        lemma_find_from_skip(s, c, start, i + 1);
    }
}

/// The lines of `s`, as [`lines_of`] cuts them.
pub fn lines(s: &str) -> (out: Vec<String>)
    ensures
        texts(out@) == lines_of(s@),
{
    let chars = chars_of(s);
    let mut out: Vec<String> = Vec::new();
    let mut start: usize = 0;
    assert(s@.skip(0) == s@);
    while start < chars.len()
        invariant
            chars@ == s@,
            start <= chars.len(),
            lines_of(s@) == texts(out@) + lines_of(s@.skip(start as int)),
        decreases chars.len() - start,
    {
        let stop = find_char(&chars, '\n', start);
        let ghost rest = s@.skip(start as int);
        proof {
            lemma_find_from_skip(s@, '\n', start as int, 0);
        }
        let ghost before = texts(out@);
        if stop < chars.len() {
            let mut end: usize = stop;
            if end > start && chars[end - 1] == '\r' {
                end = end - 1;
            }
            let line = s.substring_char(start, end);
            out.push(line.to_owned());
            proof {
                assert(rest.take(stop - start) =~= s@.subrange(start as int, stop as int));
                assert(line@ =~= without_cr(rest.take(stop - start)));
                assert(rest.skip(stop - start + 1) =~= s@.skip(stop + 1));
                assert(texts(out@) =~= before + seq![line@]);
                assert(texts(out@) + lines_of(s@.skip(stop + 1)) =~= before + (seq![line@]
                    + lines_of(s@.skip(stop + 1))));
            }
            start = stop + 1;
        } else {
            let line = s.substring_char(start, stop);
            out.push(line.to_owned());
            proof {
                assert(line@ =~= rest);
                assert(texts(out@) =~= before + seq![line@]);
                assert(lines_of(s@.skip(stop as int)) =~= Seq::<Seq<char>>::empty());
                assert(texts(out@) + lines_of(s@.skip(stop as int)) =~= before + seq![rest]);
            }
            start = stop;
        }
    }
    proof {
        assert(lines_of(s@.skip(start as int)) =~= Seq::<Seq<char>>::empty());
        assert(texts(out@) + Seq::<Seq<char>>::empty() =~= texts(out@));
    }
    out
}

/// Whether `c` has the Unicode `White_Space` property.
pub fn is_white_space(c: char) -> (r: bool)
    ensures
        r == white_space(c),
{
    ('\u{9}' <= c && c <= '\u{d}') || c == ' ' || c == '\u{85}' || c == '\u{a0}' || c
        == '\u{1680}' || ('\u{2000}' <= c && c <= '\u{200a}') || c == '\u{2028}' || c
        == '\u{2029}' || c == '\u{202f}' || c == '\u{205f}' || c == '\u{3000}'
}

/// `s` without the white space at either end.
pub fn trim(s: &str) -> (out: String)
    ensures
        out@ == trimmed(s@),
{
    let chars = chars_of(s);
    let mut start: usize = 0;
    assert(s@.skip(0) == s@);
    while start < chars.len() && is_white_space(chars[start])
        invariant
            chars@ == s@,
            start <= chars.len(),
            trimmed_start(s@) == trimmed_start(s@.skip(start as int)),
        decreases chars.len() - start,
    {
        proof {
            assert(s@.skip(start as int).drop_first() =~= s@.skip(start + 1));
        }
        start = start + 1;
    }
    let mut end: usize = chars.len();
    let ghost from_start = s@.skip(start as int);
    assert(trimmed_start(s@) == from_start);
    assert(s@.subrange(start as int, end as int) =~= from_start);
    while end > start && is_white_space(chars[end - 1])
        invariant
            chars@ == s@,
            start <= end <= chars.len(),
            trimmed_end(from_start) == trimmed_end(s@.subrange(start as int, end as int)),
        decreases end,
    {
        proof {
            let now = s@.subrange(start as int, end as int);
            assert(now.drop_last() =~= s@.subrange(start as int, end - 1));
            assert(now.last() == s@[end - 1]);
        }
        end = end - 1;
    }
    s.substring_char(start, end).to_owned()
}

/// `s` from its first character that is not `c` on.
pub fn trim_leading(s: &str, c: char) -> (out: String)
    ensures
        out@ == without_leading(s@, c),
{
    let chars = chars_of(s);
    let mut start: usize = 0;
    assert(s@.skip(0) == s@);
    while start < chars.len() && chars[start] == c
        invariant
            chars@ == s@,
            start <= chars.len(),
            without_leading(s@, c) == without_leading(s@.skip(start as int), c),
        decreases chars.len() - start,
    {
        proof {
            assert(s@.skip(start as int).drop_first() =~= s@.skip(start + 1));
        }
        start = start + 1;
    }
    let out = s.substring_char(start, chars.len()).to_owned();
    assert(out@ =~= s@.skip(start as int));
    out
}

/// `s` with every `from` replaced by `to`.
pub fn replace_char(s: &str, from: char, to: char) -> (out: String)
    ensures
        out@ == replaced(s@, from, to),
{
    let chars = chars_of(s);
    let mut out = String::new();
    for i in 0..chars.len()
        invariant
            chars@ == s@,
            out@ == replaced(s@, from, to).take(i as int),
    {
        let c = if chars[i] == from {
            to
        } else {
            chars[i]
        };
        push_char(&mut out, c);
        assert(out@ =~= replaced(s@, from, to).take(i + 1));
    }
    assert(replaced(s@, from, to).take(s@.len() as int) =~= replaced(s@, from, to));
    out
}

/// `n` in decimal.
pub fn decimal_text(n: u64) -> (out: String)
    ensures
        out@ == decimal(n as nat),
    decreases n,
{
    let mut out = if n < 10 {
        String::new()
    } else {
        decimal_text(n / 10)
    };
    let d: u8 = (n % 10) as u8;
    let code: u8 = 48 + d;
    push_char(&mut out, code as char);
    assert(out@ =~= decimal(n as nat));
    out
}

/// `s` followed by as many spaces as it is short of `width` characters.
pub fn pad_right(s: &str, width: usize) -> (out: String)
    ensures
        out@ == padded(s@, width as nat),
{
    let mut out = s.to_owned();
    let mut n: usize = s.unicode_len();
    while n < width
        invariant
            n == out@.len(),
            padded(out@, width as nat) == padded(s@, width as nat),
        decreases width - n,
    {
        push_char(&mut out, ' ');
        n = n + 1;
    }
    out
}

/// What a list of pieces comes to, each but the first behind a separator.
proof fn lemma_joined_flat(parts: Seq<Seq<char>>, sep: Seq<char>)
    ensures
        joined(parts, sep) == Seq::new(
            parts.len(),
            |k: int|
                if k == 0 {
                    parts[k]
                } else {
                    sep + parts[k]
                },
        ).flatten(),
    decreases parts.len(),
{
    let placed = Seq::new(
        parts.len(),
        |k: int|
            if k == 0 {
                parts[k]
            } else {
                sep + parts[k]
            },
    );
    if parts.len() == 1 {
        placed.lemma_flatten_one_element();
    } else if parts.len() > 1 {
        let front = parts.drop_last();
        lemma_joined_flat(front, sep);
        let before = Seq::new(
            front.len(),
            |k: int|
                if k == 0 {
                    front[k]
                } else {
                    sep + front[k]
                },
        );
        assert(placed =~= before.push(sep + parts.last()));
        before.lemma_flatten_push(sep + parts.last());
        assert(joined(parts, sep) =~= placed.flatten());
    }
}

/// Every part stands in what is joined.
proof fn lemma_part_in_joined(parts: Seq<Seq<char>>, sep: Seq<char>, k: int)
    requires
        0 <= k < parts.len(),
    ensures
        exists|i: int|
            0 <= i <= joined(parts, sep).len() && parts[k].is_prefix_of(
                #[trigger] joined(parts, sep).skip(i),
            ),
    decreases parts.len(),
{
    let s = joined(parts, sep);
    if parts.len() == 1 {
        assert(s.skip(0) =~= s);
        assert(parts[k].is_prefix_of(s.skip(0)));
    } else {
        let front = joined(parts.drop_last(), sep);
        if k == parts.len() - 1 {
            let at = (front + sep).len() as int;
            assert(s.skip(at) =~= parts[k]);
            assert(parts[k].is_prefix_of(s.skip(at)));
        } else {
            lemma_part_in_joined(parts.drop_last(), sep, k);
            assert(parts.drop_last()[k] == parts[k]);
            let i = choose|i: int|
                0 <= i <= front.len() && parts[k].is_prefix_of(#[trigger] front.skip(i));
            assert(parts[k] =~= s.skip(i).subrange(0, parts[k].len() as int)) by {
                assert(parts[k] =~= front.skip(i).subrange(0, parts[k].len() as int));
                assert(front.skip(i).subrange(0, parts[k].len() as int) =~= s.skip(i).subrange(
                    0,
                    parts[k].len() as int,
                ));
            }
            assert(parts[k].is_prefix_of(s.skip(i)));
        }
    }
}

/// Joining leaves nothing out and adds nothing but separators: the parts
/// stand one after the other, the first as it is and each of the others
/// behind one separator. So every part can be found in the result.
pub proof fn law_joining_keeps_every_part(parts: Seq<Seq<char>>, sep: Seq<char>)
    ensures
        joined(parts, sep) == Seq::new(
            parts.len(),
            |k: int|
                if k == 0 {
                    parts[k]
                } else {
                    sep + parts[k]
                },
        ).flatten(),
        forall|k: int|
            0 <= k < parts.len() ==> exists|i: int|
                0 <= i <= joined(parts, sep).len() && (#[trigger] parts[k]).is_prefix_of(
                    #[trigger] joined(parts, sep).skip(i),
                ),
{
    lemma_joined_flat(parts, sep);
    assert forall|k: int| 0 <= k < parts.len() implies exists|i: int|
        0 <= i <= joined(parts, sep).len() && (#[trigger] parts[k]).is_prefix_of(
            #[trigger] joined(parts, sep).skip(i),
        ) by {
        lemma_part_in_joined(parts, sep, k);
    }
}

/// Lines, each with its ending, one after the other.
pub open spec fn with_endings(lines: Seq<Seq<char>>, endings: Seq<Seq<char>>) -> Seq<char> {
    Seq::new(lines.len(), |k: int| lines[k] + endings[k]).flatten()
}

/// The lines of a text and their endings make up the text again, and no line
/// holds a line end: each ends in a line feed or in a carriage return and a
/// line feed, but for a last line that is not empty and need not be ended. A
/// carriage return before a line feed never stays in the line.
pub proof fn law_lines_make_up_the_text(s: Seq<char>)
    ensures
        exists|endings: Seq<Seq<char>>|
            {
                &&& endings.len() == lines_of(s).len()
                &&& s == #[trigger] with_endings(lines_of(s), endings)
                &&& forall|k: int|
                    0 <= k < endings.len() ==> {
                        ||| (#[trigger] endings[k]) == seq!['\r', '\n']
                        ||| endings[k] == seq!['\n'] && (lines_of(s)[k].len() == 0
                            || lines_of(s)[k].last() != '\r')
                        ||| k == endings.len() - 1 && endings[k].len() == 0
                            && lines_of(s)[k].len() > 0
                    }
            },
        forall|k: int|
            0 <= k < lines_of(s).len() ==> !(#[trigger] lines_of(s)[k]).contains('\n'),
    decreases s.len(),
{
    let all = lines_of(s);
    if s.len() == 0 {
        let endings = Seq::<Seq<char>>::empty();
        assert(Seq::new(all.len(), |k: int| all[k] + endings[k]) =~= Seq::<Seq<char>>::empty());
        assert(with_endings(all, endings) =~= s);
    } else {
        lemma_find_from(s, '\n', 0);
        let k = find_from(s, '\n', 0);
        if k >= s.len() {
            let endings = seq![Seq::<char>::empty()];
            let placed = Seq::new(all.len(), |k: int| all[k] + endings[k]);
            assert(placed.len() == 1);
            placed.lemma_flatten_one_element();
            assert(placed[0] =~= s);
            assert(with_endings(all, endings) =~= s);
            assert(endings[0].len() == 0);
        } else {
            let rest = s.skip(k + 1);
            law_lines_make_up_the_text(rest);
            let others = lines_of(rest);
            let ends = choose|endings: Seq<Seq<char>>|
                {
                    &&& endings.len() == lines_of(rest).len()
                    &&& rest == #[trigger] with_endings(lines_of(rest), endings)
                    &&& forall|k: int|
                        0 <= k < endings.len() ==> {
                            ||| (#[trigger] endings[k]) == seq!['\r', '\n']
                            ||| endings[k] == seq!['\n'] && (lines_of(rest)[k].len() == 0
                                || lines_of(rest)[k].last() != '\r')
                            ||| k == endings.len() - 1 && endings[k].len() == 0
                                && lines_of(rest)[k].len() > 0
                        }
                };
            let piece = s.take(k);
            let first = without_cr(piece);
            let ending = if piece.len() > 0 && piece.last() == '\r' {
                seq!['\r', '\n']
            } else {
                seq!['\n']
            };
            let endings = seq![ending] + ends;
            let placed = Seq::new(all.len(), |k: int| all[k] + endings[k]);
            let placed_rest = Seq::new(others.len(), |k: int| others[k] + ends[k]);
            assert(placed.drop_first() =~= placed_rest);
            assert(first + ending =~= s.take(k + 1));
            assert(placed[0] == first + ending);
            assert(s =~= s.take(k + 1) + rest);
            assert(with_endings(all, endings) == s);
            assert forall|j: int| 0 <= j < endings.len() implies {
                ||| (#[trigger] endings[j]) == seq!['\r', '\n']
                ||| endings[j] == seq!['\n'] && (all[j].len() == 0 || all[j].last() != '\r')
                ||| j == endings.len() - 1 && endings[j].len() == 0 && all[j].len() > 0
            } by {
                if j > 0 {
                    assert(endings[j] == ends[j - 1]);
                    assert(all[j] == others[j - 1]);
                }
            }
            assert forall|j: int| 0 <= j < all.len() implies !(#[trigger] all[j]).contains(
                '\n',
            ) by {
                if j > 0 {
                    assert(all[j] == others[j - 1]);
                }
            }
        }
    }
}

/// A number in decimal is digits that read back as the number, with no zero
/// in front of another digit.
pub proof fn law_decimal_reads_back(n: nat)
    ensures
        decimal(n).len() > 0,
        forall|k: int| 0 <= k < decimal(n).len() ==> '0' <= #[trigger] decimal(n)[k] <= '9',
        decimal(n).fold_left(0int, |v: int, c: char| v * 10 + (c as int - '0' as int)) == n,
        decimal(n).len() > 1 ==> decimal(n)[0] != '0',
    decreases n,
{
    let s = decimal(n);
    let read = |v: int, c: char| v * 10 + (c as int - '0' as int);
    reveal_with_fuel(Seq::fold_left, 2);
    if n < 10 {
        assert(s.drop_last() =~= Seq::<char>::empty());
        assert(s.last() == digit(n as int));
        assert(s.fold_left(0int, read) == read(s.drop_last().fold_left(0int, read), s.last()));
    } else {
        law_decimal_reads_back(n / 10);
        let front = decimal(n / 10);
        assert(s.drop_last() =~= front);
        assert(s.last() == digit((n % 10) as int));
        assert(s.fold_left(0int, read) == read(front.fold_left(0int, read), s.last()));
        assert(s[0] == front[0]);
        if front.len() == 1 {
            assert(front.drop_last() =~= Seq::<char>::empty());
            assert(front.fold_left(0int, read) == read(
                front.drop_last().fold_left(0int, read),
                front.last(),
            ));
        }
    }
}

/// Padding keeps the text in front and fills up with spaces to the width, and
/// leaves a text that is wide enough as it is.
pub proof fn law_padding_fills_with_spaces(s: Seq<char>, width: nat)
    ensures
        s.is_prefix_of(padded(s, width)),
        padded(s, width).len() == if s.len() < width {
            width
        } else {
            s.len()
        },
        forall|k: int| s.len() <= k < padded(s, width).len() ==> #[trigger] padded(s, width)[k] == ' ',
    decreases width - s.len(),
{
    if s.len() < width {
        let more = s.push(' ');
        law_padding_fills_with_spaces(more, width);
        let all = padded(s, width);
        assert(s =~= all.subrange(0, s.len() as int)) by {
            assert(more =~= all.subrange(0, more.len() as int));
            assert forall|k: int| 0 <= k < s.len() implies s[k] == all[k] by {
                assert(more[k] == all.subrange(0, more.len() as int)[k]);
            }
        }
        assert(all[s.len() as int] == more[s.len() as int]) by {
            assert(more[s.len() as int] == all.subrange(0, more.len() as int)[s.len() as int]);
        }
    } else {
        assert(s =~= s.subrange(0, s.len() as int));
    }
}

/// Trimming cuts white space off either end and nothing else: what is left
/// stands in the text as it is, begins and ends with something that is not
/// white space, and everything before and behind it is white space.
pub proof fn law_trimming_cuts_only_white_space(s: Seq<char>)
    ensures
        exists|a: int, b: int|
            {
                &&& 0 <= a <= b <= s.len()
                &&& trimmed(s) == #[trigger] s.subrange(a, b)
                &&& forall|k: int| 0 <= k < a ==> white_space(#[trigger] s[k])
                &&& forall|k: int| b <= k < s.len() ==> white_space(#[trigger] s[k])
            },
        trimmed(s).len() > 0 ==> !white_space(trimmed(s)[0]) && !white_space(trimmed(s).last()),
{
    let start = trimmed_start(s);
    lemma_trimmed_start(s);
    lemma_trimmed_end(start);
    let out = trimmed(s);
    let a = s.len() - start.len();
    let b = a + out.len();
    assert(s.subrange(a, b) =~= out) by {
        assert(start =~= s.skip(a));
        assert(out =~= start.take(out.len() as int));
    }
    assert forall|k: int| b <= k < s.len() implies white_space(#[trigger] s[k]) by {
        assert(start[k - a] == s[k]);
    }
    if out.len() > 0 {
        assert(out[0] == start[0]);
    }
}

proof fn lemma_trimmed_start(s: Seq<char>)
    ensures
        trimmed_start(s).len() <= s.len(),
        trimmed_start(s) == s.skip(s.len() - trimmed_start(s).len()),
        forall|k: int| 0 <= k < s.len() - trimmed_start(s).len() ==> white_space(#[trigger] s[k]),
        trimmed_start(s).len() > 0 ==> !white_space(trimmed_start(s)[0]),
    decreases s.len(),
{
    let out = trimmed_start(s);
    if s.len() > 0 && white_space(s[0]) {
        let rest = s.drop_first();
        lemma_trimmed_start(rest);
        assert(out =~= s.skip(s.len() - out.len()));
        assert forall|k: int| 0 <= k < s.len() - out.len() implies white_space(#[trigger] s[k]) by {
            if k > 0 {
                assert(rest[k - 1] == s[k]);
            }
        }
    } else {
        assert(out =~= s.skip(0));
    }
}

proof fn lemma_trimmed_end(s: Seq<char>)
    ensures
        trimmed_end(s).len() <= s.len(),
        trimmed_end(s) == s.take(trimmed_end(s).len() as int),
        forall|k: int| trimmed_end(s).len() <= k < s.len() ==> white_space(#[trigger] s[k]),
        trimmed_end(s).len() > 0 ==> !white_space(trimmed_end(s).last()),
    decreases s.len(),
{
    let out = trimmed_end(s);
    if s.len() > 0 && white_space(s.last()) {
        let rest = s.drop_last();
        lemma_trimmed_end(rest);
        assert(out =~= s.take(out.len() as int));
        assert forall|k: int| out.len() <= k < s.len() implies white_space(#[trigger] s[k]) by {
            if k < rest.len() {
                assert(rest[k] == s[k]);
            }
        }
    } else {
        assert(out =~= s.take(s.len() as int));
    }
}

/// Leading characters of one kind are dropped, all of them and nothing else.
pub proof fn law_leading_characters_are_dropped(s: Seq<char>, c: char)
    ensures
        without_leading(s, c).len() <= s.len(),
        without_leading(s, c) == s.skip(s.len() - without_leading(s, c).len()),
        forall|k: int| 0 <= k < s.len() - without_leading(s, c).len() ==> #[trigger] s[k] == c,
        without_leading(s, c).len() > 0 ==> without_leading(s, c)[0] != c,
    decreases s.len(),
{
    let out = without_leading(s, c);
    if s.len() > 0 && s[0] == c {
        let rest = s.drop_first();
        law_leading_characters_are_dropped(rest, c);
        assert(out =~= s.skip(s.len() - out.len()));
        assert forall|k: int| 0 <= k < s.len() - out.len() implies #[trigger] s[k] == c by {
            if k > 0 {
                assert(rest[k - 1] == s[k]);
            }
        }
    } else {
        assert(out =~= s.skip(0));
    }
}

/// White space is what Unicode gives that property: the controls from tab to
/// carriage return, the space, the next-line control, and the spaces and
/// separators beyond Latin-1.
pub proof fn law_white_space(c: char)
    ensures
        white_space(c) <==> {
            let n = c as int;
            ||| 9 <= n < 14
            ||| n == 32
            ||| n == 133
            ||| n == 160
            ||| n == 5760
            ||| 8192 <= n < 8203
            ||| n == 8232
            ||| n == 8233
            ||| n == 8239
            ||| n == 8287
            ||| n == 12288
        },
{
}

/// The texts of a list are those of its strings, one for each, in order, and
/// replacing a character leaves every other one where it is.
pub proof fn law_texts_follow_the_list(list: Seq<String>, s: Seq<char>, from: char, to: char)
    ensures
        texts(list).len() == list.len(),
        forall|k: int| 0 <= k < list.len() ==> #[trigger] texts(list)[k] == list[k]@,
        replaced(s, from, to).len() == s.len(),
        forall|k: int|
            0 <= k < s.len() ==> #[trigger] replaced(s, from, to)[k] == if s[k] == from {
                to
            } else {
                s[k]
            },
{
}

} // verus!
