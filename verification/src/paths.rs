//! Paths as text: parts between slashes, a leading slash being the root.
//!
//! The parts stand between slashes on every system: the functions give what `std::path` gives on
//! Unix. Whoever has a path with other separators writes slashes for them first.

use vstd::prelude::*;

use crate::text;
use crate::text::CharSet;

verus! {

/// Whether a path starts at the root.
pub open spec fn is_rooted(s: Seq<char>) -> bool {
    s.len() > 0 && s[0] == '/'
}

/// Where the piece that starts at `i` ends: before the next slash.
pub open spec fn piece_end(s: Seq<char>, i: int) -> int {
    i + text::first_of(s.skip(i), CharSet::Slash)
}

/// Whether the piece from `i` to `e` is a part of the path. Empty pieces are not, and `.` is
/// one only where the path starts with it.
pub open spec fn is_part(s: Seq<char>, i: int, e: int) -> bool {
    i < e && !(i > 0 && s.subrange(i, e) == seq!['.'])
}

/// The parts of a path from `i` on, where a piece starts, each by its start and its end.
pub open spec fn parts_from(s: Seq<char>, i: int) -> Seq<(int, int)>
    decreases s.len() - i,
    when 0 <= i <= s.len()
    via parts_from_decreases
{
    let e = piece_end(s, i);
    let here = if is_part(s, i, e) {
        seq![(i, e)]
    } else {
        Seq::empty()
    };
    if e < s.len() {
        here + parts_from(s, e + 1)
    } else {
        here
    }
}

#[via_fn]
proof fn parts_from_decreases(s: Seq<char>, i: int) {
    text::lemma_first_of(s.skip(i), CharSet::Slash);
}

/// The parts of a path, each by its start and its end; the root is a part of its own.
pub open spec fn parts(s: Seq<char>) -> Seq<(int, int)> {
    if is_rooted(s) {
        seq![(0int, 1int)] + parts_from(s, 1)
    } else {
        parts_from(s, 0)
    }
}

/// The text of a part.
pub open spec fn part_text(s: Seq<char>, part: (int, int)) -> Seq<char> {
    s.subrange(part.0, part.1)
}

/// The texts of the parts of a path.
pub open spec fn part_texts(s: Seq<char>) -> Seq<Seq<char>> {
    parts(s).map_values(|p: (int, int)| part_text(s, p))
}

/// A part of a path, by its start and its end.
#[derive(Clone, Copy)]
struct Part {
    start: usize,
    end: usize,
}

spec fn ranges(v: Seq<Part>) -> Seq<(int, int)> {
    v.map_values(|p: Part| (p.start as int, p.end as int))
}

/// The parts lie within the first `n` characters, one behind another.
spec fn in_order(v: Seq<Part>, n: int) -> bool {
    &&& forall|k: int| 0 <= k < v.len() ==> (#[trigger] v[k]).start < v[k].end && v[k].end <= n
    &&& forall|j: int, k: int|
        0 <= j < k < v.len() ==> (#[trigger] v[j]).end <= (#[trigger] v[k]).start
}

/// Finds the parts of a path.
fn find_parts(s: &[char]) -> (r: Vec<Part>)
    ensures
        ranges(r@) == parts(s@),
        in_order(r@, s@.len() as int),
{
    let mut out: Vec<Part> = Vec::new();
    let mut i: usize = 0;
    if s.len() > 0 && s[0] == '/' {
        out.push(Part { start: 0, end: 1 });
        i = 1;
        assert(ranges(out@) == seq![(0int, 1int)]);
    } else {
        assert(ranges(out@) == Seq::<(int, int)>::empty());
    }
    loop
        invariant
            i <= s@.len(),
            parts(s@) == ranges(out@) + parts_from(s@, i as int),
            in_order(out@, i as int),
        decreases s@.len() - i,
    {
        let rest = text::slice_from(s, i);
        let n: usize = text::find_first(rest, CharSet::Slash);
        let len: usize = s.len();
        let e: usize = i + n;
        assert(e == piece_end(s@, i as int));
        let piece = text::slice_to(rest, n);
        assert(piece@ =~= s@.subrange(i as int, e as int));
        let dot: bool = piece.len() == 1 && piece[0] == '.';
        assert(dot == (piece@ == seq!['.'])) by {
            if piece@.len() == 1 && piece@[0] == '.' {
                assert(piece@ =~= seq!['.']);
            }
            assert(seq!['.'][0] == '.');
        }
        let ghost before = out@;
        if n > 0 && !(i > 0 && dot) {
            out.push(Part { start: i, end: e });
            assert(ranges(out@) =~= ranges(before).push((i as int, e as int)));
        }
        if e == len {
            assert(ranges(out@) =~= parts(s@));
            return out;
        }
        assert(ranges(out@) + parts_from(s@, e + 1) =~= parts(s@));
        i = e + 1;
    }
}

/// The characters of a part.
fn part_chars<'a>(s: &'a [char], p: Part) -> (r: &'a [char])
    requires
        p.start < p.end,
        p.end <= s@.len(),
    ensures
        r@ == part_text(s@, (p.start as int, p.end as int)),
{
    vstd::slice::slice_subrange(s, p.start, p.end)
}

/// The path without its last part; the root, and an empty path, have no parent.
pub open spec fn parent(s: Seq<char>) -> Option<Seq<char>> {
    let p = parts(s);
    if p.len() == 0 || (p.len() == 1 && is_rooted(s)) {
        None
    } else if p.len() == 1 {
        Some(Seq::empty())
    } else {
        Some(s.take(p[p.len() - 2].1))
    }
}

/// Finds the parent of a path.
pub fn find_parent(path: &str) -> (r: Option<String>)
    ensures
        text::text_of(r) == parent(path@),
{
    let s = text::chars_of(path);
    let p = find_parts(s.as_slice());
    let rooted: bool = s.len() > 0 && s[0] == '/';
    if p.len() == 0 || (p.len() == 1 && rooted) {
        None
    } else if p.len() == 1 {
        Some(String::new())
    } else {
        assert(ranges(p@)[p@.len() - 2] == parts(path@)[p@.len() - 2]);
        let end: usize = p[p.len() - 2].end;
        Some(text::string_of(text::slice_to(s.as_slice(), end)))
    }
}

/// Whether the parts of `base` are the first parts of the path.
pub open spec fn is_under(s: Seq<char>, base: Seq<char>) -> bool {
    part_texts(base).is_prefix_of(part_texts(s))
}

/// How many parts `base` has, where they are the first parts of the path.
fn count_base_parts(s: &[char], p: &[Part], base: &str) -> (r: Option<usize>)
    requires
        ranges(p@) == parts(s@),
        in_order(p@, s@.len() as int),
    ensures
        match r {
            Some(n) => is_under(s@, base@) && n == parts(base@).len() && n <= p@.len(),
            None => !is_under(s@, base@),
        },
{
    let b = text::chars_of(base);
    let q = find_parts(b.as_slice());
    let ghost st = part_texts(s@);
    let ghost bt = part_texts(base@);
    if q.len() > p.len() {
        return None;
    }
    let mut i: usize = 0;
    while i < q.len()
        invariant
            i <= q@.len(),
            q@.len() <= p@.len(),
            b@ == base@,
            ranges(p@) == parts(s@),
            in_order(p@, s@.len() as int),
            ranges(q@) == parts(base@),
            in_order(q@, base@.len() as int),
            st == part_texts(s@),
            bt == part_texts(base@),
            forall|k: int| 0 <= k < i ==> #[trigger] bt[k] == st[k],
        decreases q@.len() - i,
    {
        let x = part_chars(s, p[i]);
        let y = part_chars(b.as_slice(), q[i]);
        assert(x@ == st[i as int]) by {
            assert(ranges(p@)[i as int] == parts(s@)[i as int]);
        }
        assert(y@ == bt[i as int]) by {
            assert(ranges(q@)[i as int] == parts(base@)[i as int]);
        }
        if !text::same_chars(x, y) {
            assert(bt[i as int] != st[i as int]);
            assert(!bt.is_prefix_of(st)) by {
                if bt.is_prefix_of(st) {
                    assert(st.subrange(0, bt.len() as int)[i as int] == st[i as int]);
                }
            }
            return None;
        }
        i = i + 1;
    }
    assert(bt =~= st.subrange(0, bt.len() as int));
    Some(q.len())
}

/// Tests whether the parts of `base` are the first parts of the path.
pub fn starts_with(path: &str, base: &str) -> (r: bool)
    ensures
        r == is_under(path@, base@),
{
    let s = text::chars_of(path);
    let p = find_parts(s.as_slice());
    count_base_parts(s.as_slice(), p.as_slice(), base).is_some()
}

/// The path relative to `base`, where `base` is above it.
pub open spec fn relative(s: Seq<char>, base: Seq<char>) -> Option<Seq<char>> {
    let p = parts(s);
    let n = parts(base).len() as int;
    if !is_under(s, base) {
        None
    } else if n < p.len() {
        Some(s.subrange(p[n].0, p.last().1))
    } else {
        Some(Seq::empty())
    }
}

/// Finds the path relative to `base`.
pub fn strip_prefix(path: &str, base: &str) -> (r: Option<String>)
    ensures
        text::text_of(r) == relative(path@, base@),
{
    let s = text::chars_of(path);
    let p = find_parts(s.as_slice());
    match count_base_parts(s.as_slice(), p.as_slice(), base) {
        Some(n) => if n < p.len() {
            let from: usize = p[n].start;
            let to: usize = p[p.len() - 1].end;
            assert(ranges(p@)[n as int] == parts(path@)[n as int]);
            assert(ranges(p@).last() == parts(path@).last());
            assert(from <= to) by {
                if n < p@.len() - 1 {
                    assert(p@[n as int].end <= p@[p@.len() - 1].start);
                }
            }
            Some(text::string_of(vstd::slice::slice_subrange(s.as_slice(), from, to)))
        } else {
            Some(String::new())
        },
        None => None,
    }
}

/// The last part of a path, unless it is the root, `.` or `..`.
pub open spec fn file_name(s: Seq<char>) -> Option<Seq<char>> {
    let p = parts(s);
    if p.len() == 0 || (p.len() == 1 && is_rooted(s)) {
        None
    } else {
        let t = part_text(s, p.last());
        if t == seq!['.'] || t == seq!['.', '.'] {
            None
        } else {
            Some(t)
        }
    }
}

/// Finds the last part of a path, unless it is the root, `.` or `..`.
pub fn find_file_name(path: &str) -> (r: Option<String>)
    ensures
        text::text_of(r) == file_name(path@),
{
    let s = text::chars_of(path);
    let p = find_parts(s.as_slice());
    let rooted: bool = s.len() > 0 && s[0] == '/';
    if p.len() == 0 || (p.len() == 1 && rooted) {
        return None;
    }
    assert(ranges(p@).last() == parts(path@).last());
    let t = part_chars(s.as_slice(), p[p.len() - 1]);
    let one: bool = t.len() == 1 && t[0] == '.';
    let two: bool = t.len() == 2 && t[0] == '.' && t[1] == '.';
    proof {
        assert(seq!['.'][0] == '.');
        assert(seq!['.', '.'][0] == '.' && seq!['.', '.'][1] == '.');
        if one {
            assert(t@ =~= seq!['.']);
        }
        if two {
            assert(t@ =~= seq!['.', '.']);
        }
    }
    if one || two {
        None
    } else {
        Some(text::string_of(t))
    }
}

/// Where the extension of a file name is split off: at its last dot, unless that is the first
/// character.
pub open spec fn extension_dot(name: Seq<char>) -> Option<int> {
    match text::last_match(name, "."@) {
        Some(i) => if i > 0 {
            Some(i)
        } else {
            None
        },
        None => None,
    }
}

/// The extension of the last part of a path.
pub open spec fn extension(s: Seq<char>) -> Option<Seq<char>> {
    match file_name(s) {
        Some(name) => match extension_dot(name) {
            Some(i) => Some(name.skip(i + 1)),
            None => None,
        },
        None => None,
    }
}

/// The last part of a path without its extension.
pub open spec fn stem(s: Seq<char>) -> Option<Seq<char>> {
    match file_name(s) {
        Some(name) => match extension_dot(name) {
            Some(i) => Some(name.take(i)),
            None => Some(name),
        },
        None => None,
    }
}

/// Finds the last dot of a file name that starts an extension.
fn find_extension_dot(name: &[char]) -> (r: Option<usize>)
    ensures
        match r {
            Some(i) => extension_dot(name@) == Some(i as int) && i < name@.len(),
            None => extension_dot(name@) is None,
        },
{
    proof {
        reveal_strlit(".");
    }
    match text::find_last(name, ".") {
        Some(i) => if i > 0 {
            Some(i)
        } else {
            None
        },
        None => None,
    }
}

/// Finds the extension of the last part of a path.
pub fn find_extension(path: &str) -> (r: Option<String>)
    ensures
        text::text_of(r) == extension(path@),
{
    match find_file_name(path) {
        Some(name) => {
            let n = text::chars_of(name.as_str());
            let len: usize = n.len();
            match find_extension_dot(n.as_slice()) {
                Some(i) => {
                    assert(i < len);
                    Some(text::string_of(text::slice_from(n.as_slice(), i + 1)))
                },
                None => None,
            }
        },
        None => None,
    }
}

/// Finds the last part of a path without its extension.
pub fn find_stem(path: &str) -> (r: Option<String>)
    ensures
        text::text_of(r) == stem(path@),
{
    match find_file_name(path) {
        Some(name) => {
            let n = text::chars_of(name.as_str());
            match find_extension_dot(n.as_slice()) {
                Some(i) => Some(text::string_of(text::slice_to(n.as_slice(), i))),
                None => Some(name),
            }
        },
        None => None,
    }
}

/// The path `rel` below `base`; a path that starts at the root stays as it is.
pub open spec fn joined(base: Seq<char>, rel: Seq<char>) -> Seq<char> {
    if is_rooted(rel) {
        rel
    } else if base.len() == 0 || base.last() == '/' {
        base + rel
    } else {
        base.push('/') + rel
    }
}

/// Joins two paths.
pub fn join(base: &str, rel: &str) -> (r: String)
    ensures
        r@ == joined(base@, rel@),
{
    let b = text::chars_of(base);
    let t = text::chars_of(rel);
    if t.len() > 0 && t[0] == '/' {
        return text::string_of(t.as_slice());
    }
    let mut out: Vec<char> = Vec::new();
    text::append_chars(&mut out, b.as_slice());
    if b.len() > 0 && b[b.len() - 1] != '/' {
        out.push('/');
    }
    text::append_chars(&mut out, t.as_slice());
    let r = text::string_of(out.as_slice());
    assert(r@ =~= joined(base@, rel@));
    r
}

// ---------------------------------------------------------------------------------------
// A file in a directory
// ---------------------------------------------------------------------------------------

/// Whether a path ends where its last part does.
pub open spec fn is_tight(s: Seq<char>) -> bool {
    s.len() == 0 || (parts(s).len() > 0 && parts(s).last().1 == s.len())
}

/// Whether a text is the name of a file: one part, and none that stands for a directory.
pub open spec fn is_file_name(name: Seq<char>) -> bool {
    name.len() > 0 && !name.contains('/') && name != seq!['.'] && name != seq!['.', '.']
}

/// A part lies within the path, and has no slash.
proof fn lemma_part(s: Seq<char>, i: int, k: int)
    requires
        0 <= i <= s.len(),
        0 <= k < parts_from(s, i).len(),
    ensures
        i <= parts_from(s, i)[k].0 < parts_from(s, i)[k].1 <= s.len(),
        s[parts_from(s, i)[k].1 - 1] != '/',
    decreases s.len() - i,
{
    let e = piece_end(s, i);
    text::lemma_first_of(s.skip(i), CharSet::Slash);
    let here: Seq<(int, int)> = if is_part(s, i, e) {
        seq![(i, e)]
    } else {
        Seq::empty()
    };
    if k < here.len() {
        assert(s.skip(i)[e - 1 - i] == s[e - 1]);
        assert(parts_from(s, i)[k] == (i, e));
    } else {
        lemma_part(s, e + 1, k - here.len());
        assert(parts_from(s, i)[k] == parts_from(s, e + 1)[k - here.len()]);
    }
}

/// A path that is cut where a part ends has that part at its end.
proof fn lemma_cut(s: Seq<char>, i: int, k: int)
    requires
        0 <= i <= s.len(),
        0 <= k < parts_from(s, i).len(),
    ensures
        ({
            let d = s.take(parts_from(s, i)[k].1);
            i <= d.len() && parts_from(d, i).len() > 0 && parts_from(d, i).last().1 == d.len()
        }),
    decreases s.len() - i,
{
    let end = parts_from(s, i)[k].1;
    let d = s.take(end);
    let e = piece_end(s, i);
    text::lemma_first_of(s.skip(i), CharSet::Slash);
    lemma_part(s, i, k);
    text::lemma_first_of(d.skip(i), CharSet::Slash);
    let here: Seq<(int, int)> = if is_part(s, i, e) {
        seq![(i, e)]
    } else {
        Seq::empty()
    };
    if k < here.len() {
        assert(parts_from(s, i)[k] == (i, e));
        assert(piece_end(d, i) == e) by {
            if piece_end(d, i) < e {
                let j = piece_end(d, i);
                assert(d.skip(i)[j - i] == s.skip(i)[j - i]);
            }
        }
        assert(d.subrange(i, e) == s.subrange(i, e));
        assert(parts_from(d, i) == seq![(i, e)]);
    } else {
        assert(parts_from(s, i)[k] == parts_from(s, e + 1)[k - here.len()]);
        lemma_part(s, e + 1, k - here.len());
        lemma_cut(s, e + 1, k - here.len());
        assert(piece_end(d, i) == e) by {
            assert(d.skip(i)[e - i] == s.skip(i)[e - i]);
            if piece_end(d, i) < e {
                let j = piece_end(d, i);
                assert(d.skip(i)[j - i] == s.skip(i)[j - i]);
            }
        }
        assert(parts_from(d, i).last() == parts_from(d, e + 1).last());
    }
}

/// A parent ends where its last part does.
pub proof fn parent_is_tight(s: Seq<char>)
    requires
        parent(s) is Some,
    ensures
        is_tight(parent(s)->0),
{
    let p = parts(s);
    if p.len() > 1 {
        let k = p.len() - 2;
        let d = s.take(p[k].1);
        if is_rooted(s) {
            if k == 0 {
                assert(p[0] == (0int, 1int));
                assert(d == seq!['/']);
                text::lemma_first_of(d.skip(1), CharSet::Slash);
                assert(parts_from(d, 1) == Seq::<(int, int)>::empty());
                assert(parts(d) == seq![(0int, 1int)]);
            } else {
                assert(p[k] == parts_from(s, 1)[k - 1]);
                lemma_part(s, 1, k - 1);
                lemma_cut(s, 1, k - 1);
                assert(parts(d).last() == parts_from(d, 1).last());
            }
        } else {
            lemma_part(s, 0, k);
            lemma_cut(s, 0, k);
            assert(d[0] == s[0]);
        }
    }
}

/// A parent is shorter than the path.
pub proof fn parent_is_shorter(s: Seq<char>)
    ensures
        parent(s) matches Some(p) ==> p.len() < s.len(),
{
    let p = parts(s);
    if p.len() == 1 {
        lemma_part_of(s, 0);
    } else if p.len() > 1 {
        lemma_parts_ordered(s);
        lemma_part_of(s, p.len() - 2);
        lemma_part_of(s, p.len() - 1);
    }
}

/// The last part of a path stands behind the one before it.
proof fn lemma_parts_ordered(s: Seq<char>)
    requires
        parts(s).len() > 1,
    ensures
        parts(s)[parts(s).len() - 2].1 <= parts(s).last().0,
{
    if is_rooted(s) {
        let q = parts_from(s, 1);
        if q.len() == 1 {
            lemma_part(s, 1, 0);
            assert(parts(s).last() == q[0]);
        } else {
            lemma_parts_from_ordered(s, 1);
            assert(parts(s).last() == q.last());
            assert(parts(s)[parts(s).len() - 2] == q[q.len() - 2]);
        }
    } else {
        lemma_parts_from_ordered(s, 0);
    }
}

proof fn lemma_parts_from_ordered(s: Seq<char>, i: int)
    requires
        0 <= i <= s.len(),
        parts_from(s, i).len() > 1,
    ensures
        parts_from(s, i)[parts_from(s, i).len() - 2].1 <= parts_from(s, i).last().0,
    decreases s.len() - i,
{
    let e = piece_end(s, i);
    text::lemma_first_of(s.skip(i), CharSet::Slash);
    if e < s.len() {
        let q = parts_from(s, e + 1);
        if q.len() > 1 {
            lemma_parts_from_ordered(s, e + 1);
            assert(parts_from(s, i).last() == q.last());
            assert(parts_from(s, i)[parts_from(s, i).len() - 2] == q[q.len() - 2]);
        } else {
            lemma_part(s, e + 1, 0);
            assert(parts_from(s, i).last() == q[0]);
            assert(parts_from(s, i)[0] == (i, e));
        }
    }
}

/// The parts of a path with another behind a slash are those of the path, and what follows.
proof fn lemma_concat(d: Seq<char>, rel: Seq<char>, i: int)
    requires
        0 <= i <= d.len(),
    ensures
        parts_from(d.push('/') + rel, i) == parts_from(d, i) + parts_from(
            d.push('/') + rel,
            (d.len() + 1) as int,
        ),
    decreases d.len() - i,
{
    let s = d.push('/') + rel;
    let n = d.len() as int;
    let e = piece_end(d, i);
    text::lemma_first_of(d.skip(i), CharSet::Slash);
    text::lemma_first_of(s.skip(i), CharSet::Slash);
    assert(piece_end(s, i) == e) by {
        assert(s[e] == '/') by {
            if e < n {
                assert(d.skip(i)[e - i] == d[e]);
            }
        }
        assert(s.skip(i)[e - i] == s[e]);
        if piece_end(s, i) < e {
            let j = piece_end(s, i);
            assert(s.skip(i)[j - i] == d.skip(i)[j - i]);
        }
    }
    assert(s.subrange(i, e) == d.subrange(i, e));
    if e < n {
        lemma_concat(d, rel, e + 1);
    }
    assert(parts_from(s, i) =~= parts_from(d, i) + parts_from(s, n + 1));
}

/// The same of a path that ends with a slash.
proof fn lemma_concat_slash(d: Seq<char>, rel: Seq<char>, i: int)
    requires
        0 <= i <= d.len(),
        d.len() > 0,
        d.last() == '/',
    ensures
        parts_from(d + rel, i) == parts_from(d, i) + parts_from(d + rel, d.len() as int),
    decreases d.len() - i,
{
    let s = d + rel;
    let n = d.len() as int;
    let e = piece_end(d, i);
    text::lemma_first_of(d.skip(i), CharSet::Slash);
    text::lemma_first_of(s.skip(i), CharSet::Slash);
    if i < n {
        assert(e < n) by {
            assert(d.skip(i)[n - 1 - i] == '/');
        }
        assert(piece_end(s, i) == e) by {
            assert(s.skip(i)[e - i] == d.skip(i)[e - i]);
            if piece_end(s, i) < e {
                let j = piece_end(s, i);
                assert(s.skip(i)[j - i] == d.skip(i)[j - i]);
            }
        }
        assert(s.subrange(i, e) == d.subrange(i, e));
        lemma_concat_slash(d, rel, e + 1);
        assert(parts_from(s, i) =~= parts_from(d, i) + parts_from(s, n));
    } else {
        assert(parts_from(d, i) =~= Seq::<(int, int)>::empty());
        assert(parts_from(s, i) =~= parts_from(d, i) + parts_from(s, n));
    }
}

/// The parts of a name are the name.
proof fn lemma_single(name: Seq<char>, i: int, s: Seq<char>)
    requires
        name.len() > 0,
        !name.contains('/'),
        name != seq!['.'],
        0 <= i,
        s.len() == i + name.len(),
        s.skip(i) == name,
    ensures
        parts_from(s, i) == seq![(i, s.len() as int)],
{
    text::lemma_first_of(s.skip(i), CharSet::Slash);
    assert(piece_end(s, i) == s.len()) by {
        let j = piece_end(s, i);
        if j < s.len() {
            assert(name[j - i] == '/');
            assert(name.contains('/'));
        }
    }
    assert(s.subrange(i, s.len() as int) == name);
}

/// A file in a directory has that directory as its parent, and its own name.
pub proof fn child_of_directory(d: Seq<char>, name: Seq<char>)
    requires
        is_tight(d),
        is_file_name(name),
    ensures
        parent(joined(d, name)) == Some(d),
        file_name(joined(d, name)) == Some(name),
{
    let s = joined(d, name);
    assert(!is_rooted(name)) by {
        if is_rooted(name) {
            assert(name.contains(name[0]));
        }
    }
    if d.len() == 0 {
        assert(s == name);
        assert(s.skip(0) == name);
        lemma_single(name, 0, s);
        assert(s.subrange(0, s.len() as int) == name);
    } else if d.last() == '/' {
        if is_rooted(d) && parts_from(d, 1).len() == 0 {
            assert(parts(d).last() == (0int, 1int));
            assert(d == seq!['/']);
            assert(s.skip(1) == name);
            lemma_single(name, 1, s);
            assert(parts(s) == seq![(0int, 1int), (1int, s.len() as int)]);
            assert(s.take(1) == d);
            assert(s.subrange(1, s.len() as int) == name);
        } else {
            let i = if is_rooted(d) {
                1int
            } else {
                0int
            };
            let k = parts_from(d, i).len() - 1;
            assert(parts(d).last() == parts_from(d, i)[k]);
            lemma_part(d, i, k);
        }
    } else {
        let n = d.len() as int;
        assert(s == d.push('/') + name);
        assert(s[0] == d[0]);
        if is_rooted(d) {
            lemma_concat(d, name, 1);
        } else {
            lemma_concat(d, name, 0);
        }
        assert(s.skip(n + 1) == name);
        lemma_single(name, n + 1, s);
        assert(parts(s) =~= parts(d).push((n + 1, s.len() as int)));
        assert(s.take(n) == d);
        assert(s.subrange(n + 1, s.len() as int) == name);
    }
}

/// Where what is joined to a path starts.
pub open spec fn tail_start(d: Seq<char>) -> int {
    if d.len() == 0 || d.last() == '/' {
        d.len() as int
    } else {
        d.len() as int + 1
    }
}

/// The parts of a joined path are those of the first path, and those of what follows.
proof fn lemma_joined_parts(d: Seq<char>, rel: Seq<char>)
    requires
        !is_rooted(rel),
    ensures
        parts(joined(d, rel)) == parts(d) + parts_from(joined(d, rel), tail_start(d)),
{
    let s = joined(d, rel);
    if d.len() == 0 {
        assert(s == rel);
        text::lemma_first_of(d.skip(0), CharSet::Slash);
        assert(parts(d) =~= Seq::<(int, int)>::empty());
        assert(parts(s) =~= parts(d) + parts_from(s, 0));
    } else {
        assert(s[0] == d[0]);
        let i = if is_rooted(d) {
            1int
        } else {
            0int
        };
        if d.last() == '/' {
            lemma_concat_slash(d, rel, i);
        } else {
            lemma_concat(d, rel, i);
        }
        assert(parts(s) =~= parts(d) + parts_from(s, tail_start(d)));
    }
}

/// What is joined to a path is under it.
pub proof fn joined_path_is_under(d: Seq<char>, rel: Seq<char>)
    requires
        !is_rooted(rel),
    ensures
        is_under(joined(d, rel), d),
        parts(joined(d, rel)).len() >= parts(d).len(),
{
    let s = joined(d, rel);
    lemma_joined_parts(d, rel);
    let n = parts(d).len();
    let dt = part_texts(d);
    let st = part_texts(s);
    assert forall|k: int| 0 <= k < n implies st[k] == dt[k] by {
        assert(parts(s)[k] == parts(d)[k]);
        lemma_part_of(d, k);
        assert(part_text(s, parts(s)[k]) =~= part_text(d, parts(d)[k]));
    }
    assert(st.subrange(0, n as int) =~= dt);
}

/// A part lies within the path.
proof fn lemma_part_of(d: Seq<char>, k: int)
    requires
        0 <= k < parts(d).len(),
    ensures
        0 <= parts(d)[k].0 < parts(d)[k].1 <= d.len(),
{
    if is_rooted(d) {
        if k > 0 {
            lemma_part(d, 1, k - 1);
            assert(parts(d)[k] == parts_from(d, 1)[k - 1]);
        }
    } else {
        lemma_part(d, 0, k);
    }
}

/// A part is one of the pieces between slashes.
proof fn lemma_part_is_piece(s: Seq<char>, i: int, k: int)
    requires
        0 <= i <= s.len(),
        0 <= k < parts_from(s, i).len(),
    ensures
        text::split(s.skip(i), CharSet::Slash).contains(part_text(s, parts_from(s, i)[k])),
    decreases s.len() - i,
{
    let rest = s.skip(i);
    let e = piece_end(s, i);
    text::lemma_first_of(rest, CharSet::Slash);
    let pieces = text::split(rest, CharSet::Slash);
    let here: Seq<(int, int)> = if is_part(s, i, e) {
        seq![(i, e)]
    } else {
        Seq::empty()
    };
    if k < here.len() {
        assert(parts_from(s, i)[k] == (i, e));
        assert(part_text(s, (i, e)) =~= rest.take(e - i));
        if e < s.len() {
            assert(pieces[0] == rest.take(e - i));
        } else {
            assert(rest.take(e - i) =~= rest);
            assert(pieces[0] == rest);
        }
    } else {
        lemma_part_is_piece(s, e + 1, k - here.len());
        assert(parts_from(s, i)[k] == parts_from(s, e + 1)[k - here.len()]);
        let later = text::split(s.skip(e + 1), CharSet::Slash);
        assert(rest.skip(e - i + 1) =~= s.skip(e + 1));
        let t = part_text(s, parts_from(s, i)[k]);
        let j = choose|j: int| 0 <= j < later.len() && later[j] == t;
        assert(pieces[j + 1] == later[j]);
    }
}

/// The parts that follow in a joined path are pieces of what was joined.
pub proof fn joined_parts_are_pieces(d: Seq<char>, rel: Seq<char>, k: int)
    requires
        !is_rooted(rel),
        parts(d).len() <= k < parts(joined(d, rel)).len(),
    ensures
        text::split(rel, CharSet::Slash).contains(part_texts(joined(d, rel))[k]),
{
    let s = joined(d, rel);
    let at = tail_start(d);
    lemma_joined_parts(d, rel);
    assert(s.skip(at) =~= rel);
    lemma_part_is_piece(s, at, k - parts(d).len());
    assert(parts(s)[k] == parts_from(s, at)[k - parts(d).len()]);
}

// ---------------------------------------------------------------------------------------
// What paths are made of
// ---------------------------------------------------------------------------------------

/// The pieces that are parts of a path: those that are neither empty nor a single dot.
pub open spec fn kept(pieces: Seq<Seq<char>>) -> Seq<Seq<char>> {
    pieces.filter(|p: Seq<char>| p.len() > 0 && p != seq!['.'])
}

proof fn lemma_kept_first(p: Seq<char>, rest: Seq<Seq<char>>)
    ensures
        kept(seq![p] + rest) == (if p.len() > 0 && p != seq!['.'] {
            seq![p] + kept(rest)
        } else {
            kept(rest)
        }),
    decreases rest.len(),
{
    reveal(Seq::filter);
    reveal_with_fuel(Seq::filter, 2);
    let all = seq![p] + rest;
    if rest.len() == 0 {
        assert(all =~= seq![p]);
        assert(seq![p].drop_last() =~= Seq::<Seq<char>>::empty());
        assert(seq![p] + kept(rest) =~= seq![p]);
        assert(kept(all) =~= (if p.len() > 0 && p != seq!['.'] {
            seq![p] + kept(rest)
        } else {
            kept(rest)
        }));
    } else {
        assert(all.drop_last() =~= seq![p] + rest.drop_last());
        lemma_kept_first(p, rest.drop_last());
        assert(all.last() == rest.last());
        let f = |p: Seq<char>| p.len() > 0 && p != seq!['.'];
        if p.len() > 0 && p != seq!['.'] {
            assert(kept(all) =~= seq![p] + kept(rest));
        } else {
            assert(kept(all) =~= kept(rest));
        }
    }
}

proof fn lemma_parts_are_pieces(s: Seq<char>, i: int)
    requires
        0 < i <= s.len(),
    ensures
        parts_from(s, i).map_values(|p: (int, int)| part_text(s, p)) == kept(
            text::split(s.skip(i), CharSet::Slash),
        ),
    decreases s.len() - i,
{
    let f = |p: (int, int)| part_text(s, p);
    let t = s.skip(i);
    let e = piece_end(s, i);
    text::lemma_first_of(t, CharSet::Slash);
    let piece = s.subrange(i, e);
    assert(t.take(e - i) =~= piece);
    let here: Seq<(int, int)> = if is_part(s, i, e) {
        seq![(i, e)]
    } else {
        Seq::empty()
    };
    let none = Seq::<Seq<char>>::empty();
    assert(here.map_values(f) =~= (if is_part(s, i, e) {
        seq![piece]
    } else {
        none
    }));
    if e < s.len() {
        assert(t.skip(e - i + 1) =~= s.skip(e + 1));
        lemma_parts_are_pieces(s, e + 1);
        lemma_kept_first(piece, text::split(s.skip(e + 1), CharSet::Slash));
        assert(parts_from(s, i).map_values(f) =~= here.map_values(f) + parts_from(
            s,
            e + 1,
        ).map_values(f));
        assert(none + parts_from(s, e + 1).map_values(f) =~= parts_from(s, e + 1).map_values(f));
        assert(text::split(t, CharSet::Slash) =~= seq![piece] + text::split(
            s.skip(e + 1),
            CharSet::Slash,
        ));
    } else {
        assert(piece =~= t);
        assert(text::split(t, CharSet::Slash) == seq![t]);
        lemma_kept_first(t, none);
        assert(seq![t] + none =~= seq![t]);
        reveal(Seq::filter);
        assert(kept(none) =~= none);
        assert(seq![t] + kept(none) =~= seq![t]);
    }
}

/// The parts of a path are its pieces between slashes, without empty ones and without single
/// dots. A path that starts with a slash has that as its first part, and in another one the
/// first piece is a part even if it is a single dot.
pub proof fn parts_are_pieces(s: Seq<char>)
    ensures
        s.len() > 0 && s[0] == '/' ==> part_texts(s) == seq![seq!['/']] + kept(
            text::split(s.skip(1), CharSet::Slash),
        ),
        s.len() > 0 && s[0] != '/' ==> part_texts(s) == seq![text::split(s, CharSet::Slash)[0]]
            + kept(text::split(s, CharSet::Slash).skip(1)),
        s.len() == 0 ==> part_texts(s).len() == 0,
{
    let f = |p: (int, int)| part_text(s, p);
    if s.len() == 0 {
        text::lemma_first_of(s.skip(0), CharSet::Slash);
    } else if s[0] == '/' {
        lemma_parts_are_pieces(s, 1);
        assert(s.subrange(0, 1) =~= seq!['/']);
        assert(part_texts(s) =~= seq![seq!['/']] + parts_from(s, 1).map_values(f));
    } else {
        let e = piece_end(s, 0);
        assert(s.skip(0) =~= s);
        text::lemma_first_of(s, CharSet::Slash);
        assert(e > 0) by {
            if e == 0 {
                assert(CharSet::Slash.has(s[0]));
            }
        }
        assert(s.subrange(0, e) =~= s.take(e));
        let pieces = text::split(s, CharSet::Slash);
        if e < s.len() {
            lemma_parts_are_pieces(s, e + 1);
            assert(pieces =~= seq![s.take(e)] + text::split(s.skip(e + 1), CharSet::Slash));
            assert(pieces.skip(1) =~= text::split(s.skip(e + 1), CharSet::Slash));
            assert(part_texts(s) =~= seq![s.take(e)] + parts_from(s, e + 1).map_values(f));
        } else {
            assert(s.take(e) =~= s);
            assert(pieces == seq![s]);
            assert(pieces.skip(1) =~= Seq::<Seq<char>>::empty());
            reveal(Seq::filter);
            assert(kept(pieces.skip(1)) =~= Seq::<Seq<char>>::empty());
            assert(part_texts(s) =~= seq![s] + kept(pieces.skip(1)));
        }
    }
}

proof fn lemma_last_end(s: Seq<char>, i: int)
    requires
        0 < i < s.len(),
        s.last() != '/',
        !(s.last() == '.' && (i == s.len() - 1 || s[s.len() - 2] == '/')),
    ensures
        parts_from(s, i).len() > 0,
        parts_from(s, i).last().1 == s.len(),
    decreases s.len() - i,
{
    let e = piece_end(s, i);
    let n = s.len() as int;
    text::lemma_first_of(s.skip(i), CharSet::Slash);
    if e < n {
        assert(s.skip(i)[e - i] == '/');
        assert(e + 1 < n);
        if e + 1 == n - 1 {
            assert(s[n - 2] == '/');
        }
        lemma_last_end(s, e + 1);
    } else {
        assert(s.subrange(i, n).last() == s.last());
        if s.subrange(i, n) == seq!['.'] {
            assert(s.subrange(i, n).len() == 1);
        }
    }
}

proof fn lemma_first_start(s: Seq<char>, i: int)
    requires
        0 < i < s.len(),
        s[i] != '/',
        !(s[i] == '.' && (i == s.len() - 1 || s[i + 1] == '/')),
    ensures
        parts_from(s, i).len() > 0,
        parts_from(s, i)[0].0 == i,
{
    let e = piece_end(s, i);
    text::lemma_first_of(s.skip(i), CharSet::Slash);
    assert(e > i) by {
        if e == i {
            assert(CharSet::Slash.has(s.skip(i)[0]));
        }
    }
    if s.subrange(i, e) == seq!['.'] {
        assert(s.subrange(i, e)[0] == s[i]);
        assert(s.subrange(i, e).len() == 1);
        if e < s.len() {
            assert(s.skip(i)[1] == '/');
        }
    }
}

/// A path below a folder gives back what it was made of: what stands behind the folder. This is
/// said of relative paths that neither start nor end with a slash or a single dot.
pub proof fn joined_path_gives_back(d: Seq<char>, rel: Seq<char>)
    requires
        d.len() > 0,
        rel.len() > 0,
        rel[0] != '/',
        !(rel[0] == '.' && (rel.len() == 1 || rel[1] == '/')),
        rel.last() != '/',
        !(rel.last() == '.' && (rel.len() == 1 || rel[rel.len() - 2] == '/')),
    ensures
        relative(joined(d, rel), d) == Some(rel),
        is_tight(joined(d, rel)),
{
    let s = joined(d, rel);
    let t = tail_start(d);
    lemma_joined_parts(d, rel);
    joined_path_is_under(d, rel);
    assert(s.skip(t) =~= rel);
    assert(forall|k: int| 0 <= k < rel.len() ==> s[t + k] == #[trigger] rel[k]);
    assert(s[t] == rel[0]);
    if rel.len() > 1 {
        assert(s[t + 1] == rel[1]);
        assert(s[s.len() - 2] == rel[rel.len() - 2]);
    }
    assert(s.last() == rel.last());
    lemma_first_start(s, t);
    lemma_last_end(s, t);
    let p = parts(s);
    let n = parts(d).len() as int;
    assert(p[n] == parts_from(s, t)[0]);
    assert(p.last() == parts_from(s, t).last());
    assert(s.subrange(t, s.len() as int) =~= rel);
}

/// The extension of a file name stands behind its last dot, and the stem before it.
pub proof fn stem_and_extension_part_at_the_last_dot(
    d: Seq<char>,
    base: Seq<char>,
    ext: Seq<char>,
)
    requires
        is_tight(d),
        base.len() > 0,
        !base.contains('/'),
        !ext.contains('/'),
        !ext.contains('.'),
        base != seq!['.'] || ext.len() > 0,
    ensures
        stem(joined(d, base.push('.') + ext)) == Some(base),
        extension(joined(d, base.push('.') + ext)) == Some(ext),
{
    let name = base.push('.') + ext;
    let n = base.len() as int;
    reveal_strlit(".");
    assert(name[n] == '.');
    assert(name != seq!['.']) by {
        assert(name.len() >= 2);
    }
    assert(name != seq!['.', '.']) by {
        if name == seq!['.', '.'] {
            assert(name.len() == 2);
            assert(ext.len() == 0);
            assert(base[0] == name[0]);
            assert(base =~= seq!['.']);
        }
    }
    assert(!name.contains('/')) by {
        if name.contains('/') {
            let i = choose|i: int| 0 <= i < name.len() && name[i] == '/';
            if i < n {
                assert(base[i] == '/');
            } else if i > n {
                assert(ext[i - n - 1] == '/');
            }
        }
    }
    child_of_directory(d, name);
    assert(name.subrange(n, n + 1) =~= "."@);
    assert(text::matches_at(name, "."@, n));
    text::the_last_place_is_found(name, "."@, n);
    text::lemma_last_match(name, "."@, name.len() as int);
    let j = text::last_match(name, "."@)->0;
    if j > n {
        assert(name.subrange(j, j + 1)[0] == name[j]);
        assert(ext[j - n - 1] == '.');
    }
    assert(name.take(n) =~= base);
    assert(name.skip(n + 1) =~= ext);
}

/// A file name without a dot, or with one at its start alone, has no extension.
pub proof fn names_without_dot_have_no_extension(d: Seq<char>, name: Seq<char>)
    requires
        is_tight(d),
        is_file_name(name),
        forall|i: int| 0 < i < name.len() ==> #[trigger] name[i] != '.',
    ensures
        stem(joined(d, name)) == Some(name),
        extension(joined(d, name)) is None,
{
    reveal_strlit(".");
    child_of_directory(d, name);
    text::lemma_last_match(name, "."@, name.len() as int);
    match text::last_match(name, "."@) {
        Some(i) => {
            assert(name.subrange(i, i + 1)[0] == name[i]);
        },
        None => {},
    }
}

/// An absolute path replaces what it is joined to, and to an empty path nothing is added.
pub proof fn absolute_paths_replace(base: Seq<char>, rel: Seq<char>)
    ensures
        rel.len() > 0 && rel[0] == '/' ==> joined(base, rel) == rel,
        base.len() == 0 ==> joined(base, rel) == rel,
        base.len() > 0 && base.last() == '/' && (rel.len() == 0 || rel[0] != '/') ==> joined(
            base,
            rel,
        ) == base + rel,
        base.len() > 0 && base.last() != '/' && (rel.len() == 0 || rel[0] != '/') ==> joined(
            base,
            rel,
        ) == base + seq!['/'] + rel,
{
    assert(base.len() == 0 ==> base + rel =~= rel);
    assert(base.push('/') + rel =~= base + seq!['/'] + rel);
}

/// A path lies under each of its own folders and under itself, and only under those whose parts
/// it starts with.
pub proof fn paths_lie_under_their_folders(s: Seq<char>, base: Seq<char>)
    ensures
        is_under(s, s),
        is_under(s, base) <==> part_texts(base).len() <= part_texts(s).len() && forall|k: int|
            0 <= k < part_texts(base).len() ==> #[trigger] part_texts(base)[k] == part_texts(s)[k],
        relative(s, base) is Some <==> is_under(s, base),
{
    let a = part_texts(base);
    let b = part_texts(s);
    if a.len() <= b.len() && (forall|k: int| 0 <= k < a.len() ==> #[trigger] a[k] == b[k]) {
        assert(a =~= b.take(a.len() as int));
        assert(a.is_prefix_of(b));
    }
    assert(b.is_prefix_of(b));
}

/// The name of a file is the last part of its path, unless that leads up or is the root.
pub proof fn the_last_part_is_the_name(s: Seq<char>)
    ensures
        ({
            let t = part_texts(s);
            let rootless = t.len() > 1 || (t.len() == 1 && s[0] != '/');
            &&& rootless && t.last() != seq!['.', '.'] && t.last() != seq!['.'] ==> file_name(s)
                == Some(t.last())
            &&& !rootless || t.last() == seq!['.', '.'] ==> file_name(s) is None
        }),
{
    if parts(s).len() > 0 {
        assert(part_texts(s).last() == part_text(s, parts(s).last()));
    }
}

/// Only the root and the empty path have no parent, and the parent of a single relative part is
/// empty.
pub proof fn only_roots_have_no_parent(s: Seq<char>)
    ensures
        parent(s) is None <==> part_texts(s).len() == 0 || (part_texts(s).len() == 1 && s[0]
            == '/'),
        part_texts(s).len() == 1 && s[0] != '/' ==> parent(s) == Some(Seq::<char>::empty()),
        parent(s) matches Some(p) ==> p.is_prefix_of(s),
{
    if s.len() == 0 {
        parts_are_pieces(s);
    }
    if parts(s).len() > 1 {
        lemma_part_of(s, parts(s).len() - 2);
    }
}

/// A slash behind a path changes nothing of what it is made of.
pub proof fn slashes_behind_do_not_count(s: Seq<char>)
    requires
        s.len() > 0,
    ensures
        parts(s.push('/')) == parts(s),
        parent(s.push('/')) == parent(s),
        file_name(s.push('/')) == file_name(s),
{
    let e = Seq::<char>::empty();
    let t = s.push('/');
    assert(t + e =~= t);
    let n = t.len() as int;
    text::lemma_first_of(t.skip(n), CharSet::Slash);
    assert(parts_from(t, n) =~= Seq::<(int, int)>::empty());
    assert(t[0] == s[0]);
    if is_rooted(s) {
        lemma_concat(s, e, 1);
        assert(parts_from(t, 1) =~= parts_from(s, 1));
    } else {
        lemma_concat(s, e, 0);
        assert(parts_from(t, 0) =~= parts_from(s, 0));
    }
    let p = parts(s);
    if p.len() > 0 {
        lemma_part_of(s, p.len() - 1);
        assert(part_text(t, p.last()) =~= part_text(s, p.last()));
    }
    if p.len() > 1 {
        lemma_part_of(s, p.len() - 2);
        assert(t.take(p[p.len() - 2].1) =~= s.take(p[p.len() - 2].1));
    }
}

proof fn lemma_before_last(s: Seq<char>, i: int, k: int)
    requires
        0 <= i <= s.len(),
        0 <= k < parts_from(s, i).len(),
    ensures
        parts_from(s, i)[k].1 <= parts_from(s, i).last().1,
    decreases s.len() - i,
{
    let e = piece_end(s, i);
    text::lemma_first_of(s.skip(i), CharSet::Slash);
    if e < s.len() {
        let rest = parts_from(s, e + 1);
        let m = parts_from(s, i).len() - rest.len();
        if rest.len() > 0 {
            lemma_part(s, e + 1, rest.len() - 1);
            assert(parts_from(s, i).last() == rest.last());
            if k >= m {
                lemma_before_last(s, e + 1, k - m);
                assert(parts_from(s, i)[k] == rest[k - m]);
            }
        }
    }
}

/// What is left of a path below a folder ends with a part, and not with slashes.
pub proof fn relative_paths_end_with_a_part(s: Seq<char>, base: Seq<char>)
    requires
        parts(base).len() > 0,
    ensures
        relative(s, base) matches Some(r) ==> (r.len() > 0 ==> r.last() != '/'),
        is_under(s, base) && parts(s).len() == parts(base).len() ==> relative(s, base) == Some(
            Seq::<char>::empty(),
        ),
{
    let p = parts(s);
    let n = parts(base).len() as int;
    if is_under(s, base) && n < p.len() {
        lemma_part_of(s, p.len() - 1);
        lemma_part_of(s, n);
        if is_rooted(s) {
            lemma_part(s, 1, p.len() - 2);
            lemma_before_last(s, 1, n - 1);
        } else {
            lemma_part(s, 0, p.len() - 1);
            lemma_before_last(s, 0, n);
        }
        let r = s.subrange(p[n].0, p.last().1);
        if r.len() > 0 {
            assert(r.last() == s[p.last().1 - 1]);
        }
    }
}

} // verus!
