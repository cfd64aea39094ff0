//! The text format of the morphology database: its lines, its section
//! headers, and the `key:value` feature lists of its entries.
use vstd::hash_map::StringHashMap;
use vstd::prelude::*;

use crate::chars::{char_width, chars_slice, copy_chars, string_of, utf8_width};
use crate::text_rules::{lemma_split_on_nonempty, split_on};
use crate::utils::{split_chars, vec_views};

verus! {

/// `s` without one trailing carriage return.
pub open spec fn strip_cr(s: Seq<char>) -> Seq<char> {
    if s.len() > 0 && s.last() == '\r' {
        s.drop_last()
    } else {
        s
    }
}

/// The lines of a text as `str::lines` gives them: the text is cut at each
/// `\n`; a line that a `\n` ends loses one `\r` before it; the last line,
/// which no `\n` ends, is kept as it is unless it is empty.
pub open spec fn text_lines(s: Seq<char>) -> Seq<Seq<char>> {
    let parts = split_on(s, '\n');
    let n = if parts.last().len() == 0 {
        parts.len() - 1
    } else {
        parts.len() as int
    };
    Seq::new(
        n as nat,
        |i: int|
            if i < parts.len() - 1 {
                strip_cr(parts[i])
            } else {
                parts[i]
            },
    )
}

/// The lines of a text (`str::lines`).
pub fn lines_of(text: &[char]) -> (r: Vec<Vec<char>>)
    ensures
        vec_views(r@) == text_lines(text@),
{
    let parts = split_chars(text, '\n');
    proof {
        lemma_split_on_nonempty(text@, '\n');
    }
    let ghost sp = split_on(text@, '\n');
    let np = parts.len();
    assert(parts@[np - 1]@ == sp.last());
    let n = if parts[np - 1].len() == 0 {
        np - 1
    } else {
        np
    };
    let mut out: Vec<Vec<char>> = Vec::new();
    let mut i: usize = 0;
    while i < n
        invariant
            np == parts@.len(),
            np >= 1,
            vec_views(parts@) == sp,
            sp == split_on(text@, '\n'),
            n == (if sp.last().len() == 0 {
                np - 1
            } else {
                np as int
            }),
            i <= n,
            out@.len() == i,
            forall|k: int| 0 <= k < i ==> #[trigger] out@[k]@ == text_lines(text@)[k],
        decreases n - i,
    {
        let p = &parts[i];
        assert(p@ == sp[i as int]);
        let line = if i < np - 1 && p.len() > 0 && p[p.len() - 1] == '\r' {
            let l = chars_slice(p.as_slice(), 0, p.len() - 1);
            assert(l@ =~= p@.drop_last());
            l
        } else {
            copy_chars(p.as_slice())
        };
        out.push(line);
        i += 1;
    }
    assert(vec_views(out@) =~= text_lines(text@));
    out
}

/// A section header: a line that starts with `###`.
pub open spec fn is_header(line: Seq<char>) -> bool {
    line.len() >= 3 && line[0] == '#' && line[1] == '#' && line[2] == '#'
}

/// How many characters at the end of a header make up its last three bytes,
/// with the `###` that opens it left whole: 0 when no run of final characters
/// takes exactly three bytes there, so that the header cannot be cut three
/// bytes from each end.
pub open spec fn header_tail(line: Seq<char>) -> int {
    let n = line.len() as int;
    if n >= 4 && utf8_width(line[n - 1]) == 3 {
        1
    } else if n >= 5 && utf8_width(line[n - 1]) + utf8_width(line[n - 2]) == 3 {
        2
    } else if n >= 6 && utf8_width(line[n - 1]) == 1 && utf8_width(line[n - 2]) == 1
        && utf8_width(line[n - 3]) == 1 {
        3
    } else {
        0
    }
}

/// The section that a header opens: the header without its first and last
/// three bytes.
pub open spec fn section_name(line: Seq<char>) -> Seq<char> {
    line.subrange(3, line.len() - header_tail(line))
}

/// Every header among the lines can be cut three bytes from each end.
pub open spec fn headers_ok(lines: Seq<Seq<char>>) -> bool {
    forall|i: int|
        0 <= i < lines.len() && is_header(#[trigger] lines[i]) ==> header_tail(lines[i]) > 0
}

/// Whether a line opens a section.
pub fn line_is_header(line: &[char]) -> (r: bool)
    ensures
        r == is_header(line@),
{
    line.len() >= 3 && line[0] == '#' && line[1] == '#' && line[2] == '#'
}

fn header_tail_of(line: &[char]) -> (k: usize)
    ensures
        k == header_tail(line@),
{
    let n = line.len();
    if n >= 4 && char_width(line[n - 1]) == 3 {
        1
    } else if n >= 5 && char_width(line[n - 1]) + char_width(line[n - 2]) == 3 {
        2
    } else if n >= 6 && char_width(line[n - 1]) == 1 && char_width(line[n - 2]) == 1 && char_width(
        line[n - 3],
    ) == 1 {
        3
    } else {
        0
    }
}

/// Whether a line is a header that can be cut three bytes from each end, or
/// no header at all.
pub fn header_line_ok(line: &[char]) -> (r: bool)
    ensures
        r == (is_header(line@) ==> header_tail(line@) > 0),
{
    !line_is_header(line) || header_tail_of(line) > 0
}

/// The section that a header opens.
pub fn section_of(line: &[char]) -> (r: Vec<char>)
    requires
        is_header(line@),
        header_tail(line@) > 0,
    ensures
        r@ == section_name(line@),
{
    let k = header_tail_of(line);
    chars_slice(line, 3, line.len() - k)
}

/// Whether every header of a text can be cut three bytes from each end.
pub fn text_headers_ok(text: &str) -> (r: bool)
    ensures
        r == headers_ok(text_lines(text@)),
{
    let cs = crate::chars::chars_of(text);
    let lines = lines_of(&cs);
    let ghost ls = text_lines(text@);
    let mut i: usize = 0;
    while i < lines.len()
        invariant
            vec_views(lines@) == ls,
            ls == text_lines(text@),
            i <= lines@.len(),
            forall|k: int|
                0 <= k < i && is_header(#[trigger] ls[k]) ==> header_tail(ls[k]) > 0,
        decreases lines@.len() - i,
    {
        assert(lines@[i as int]@ == ls[i as int]);
        if !header_line_ok(&lines[i]) {
            assert(is_header(ls[i as int]) && header_tail(ls[i as int]) <= 0);
            return false;
        }
        i += 1;
    }
    true
}

// ---------------------------------------------------------------------------
// Pieces of a line

/// The position of the first `c` in `s` at or after `i` (`s.len()` when there is none).
pub open spec fn sep_index(s: Seq<char>, c: char, i: int) -> int
    decreases s.len() - i,
{
    if i < 0 || i >= s.len() || s[i] == c {
        i
    } else {
        sep_index(s, c, i + 1)
    }
}

/// `s` cut at its first `c` (`splitn(2, c)`): the text before it, all of `s`
/// when it holds none, and the text after it, when there is one.
pub open spec fn split_once(s: Seq<char>, c: char) -> (Seq<char>, Option<Seq<char>>) {
    let k = sep_index(s, c, 0);
    if 0 <= k < s.len() {
        (s.take(k), Some(s.skip(k + 1)))
    } else {
        (s, None)
    }
}

/// Cuts `s` at its first `c`.
pub fn split_once_chars(s: &[char], c: char) -> (r: (Vec<char>, Option<Vec<char>>))
    ensures
        r.0@ == split_once(s@, c).0,
        match r.1 {
            Some(t) => split_once(s@, c).1 == Some(t@),
            None => split_once(s@, c).1 is None,
        },
{
    let n = s.len();
    let mut i: usize = 0;
    while i < n && s[i] != c
        invariant
            n == s@.len(),
            i <= n,
            sep_index(s@, c, 0) == sep_index(s@, c, i as int),
        decreases n - i,
    {
        i += 1;
    }
    if i < n {
        (chars_slice(s, 0, i), Some(chars_slice(s, i + 1, n)))
    } else {
        assert(s@.take(n as int) =~= s@);
        (copy_chars(s), None)
    }
}

/// The text views of a map of strings.
pub open spec fn text_fields(m: Map<Seq<char>, String>) -> Map<Seq<char>, Seq<char>> {
    m.map_values(|s: String| s@)
}

/// The feature map that the `key:value` pieces from `i` on add to `acc`,
/// later keys winning; empty pieces are passed over when `skip_empty` holds.
/// `None` when a piece that is read has no `:`.
pub open spec fn feature_scan(
    pieces: Seq<Seq<char>>,
    skip_empty: bool,
    i: int,
    acc: Map<Seq<char>, Seq<char>>,
) -> Option<Map<Seq<char>, Seq<char>>>
    decreases pieces.len() - i,
{
    if i < 0 || i >= pieces.len() {
        Some(acc)
    } else if skip_empty && pieces[i].len() == 0 {
        feature_scan(pieces, skip_empty, i + 1, acc)
    } else {
        match split_once(pieces[i], ':').1 {
            None => None,
            Some(v) => feature_scan(pieces, skip_empty, i + 1, acc.insert(split_once(pieces[i], ':').0, v)),
        }
    }
}

/// The feature map that a list of `key:value` pieces writes.
pub open spec fn features(pieces: Seq<Seq<char>>, skip_empty: bool) -> Option<Map<Seq<char>, Seq<char>>> {
    feature_scan(pieces, skip_empty, 0, Map::empty())
}

/// Reads a list of `key:value` pieces into a map.
pub fn feature_map(pieces: &Vec<Vec<char>>, skip_empty: bool) -> (r: Option<StringHashMap<String>>)
    ensures
        match r {
            Some(m) => features(vec_views(pieces@), skip_empty) == Some(text_fields(m@)),
            None => features(vec_views(pieces@), skip_empty) is None,
        },
{
    let ghost ps = vec_views(pieces@);
    let mut m: StringHashMap<String> = StringHashMap::new();
    assert(text_fields(m@) =~= Map::<Seq<char>, Seq<char>>::empty());
    let mut i: usize = 0;
    while i < pieces.len()
        invariant
            ps == vec_views(pieces@),
            i <= pieces@.len(),
            features(ps, skip_empty) == feature_scan(ps, skip_empty, i as int, text_fields(m@)),
        decreases pieces@.len() - i,
    {
        let p = &pieces[i];
        assert(p@ == ps[i as int]);
        if skip_empty && p.len() == 0 {
        } else {
            let (k, v) = split_once_chars(p.as_slice(), ':');
            match v {
                None => {
                    return None;
                },
                Some(v) => {
                    let ghost before = text_fields(m@);
                    let ks = string_of(&k);
                    let vs = string_of(&v);
                    m.insert(ks, vs);
                    assert(text_fields(m@) =~= before.insert(k@, v@));
                },
            }
        }
        i += 1;
    }
    Some(m)
}

} // verus!
