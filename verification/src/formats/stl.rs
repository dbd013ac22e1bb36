//! STL files, binary and as text.

use vstd::prelude::*;
use vstd::utf8;

use crate::bounds;
use crate::bounds::{Bounds, Corner};
use crate::lists;
use crate::numbers;
use crate::text;
use crate::text::CharSet;
use crate::unicode;

verus! {

/// A point whose coordinates are given as the bits of IEEE 754 singles.
#[derive(Clone, Copy, PartialEq, Eq, Structural, Debug)]
pub struct Point {
    pub x: u32,
    pub y: u32,
    pub z: u32,
}

/// Why a file cannot be read.
#[derive(Clone, Copy, PartialEq, Eq, Structural, Debug)]
pub enum StlError {
    /// A binary file has a header of eighty bytes and a count of four.
    TooShort,
}

/// The coordinates of the vertices as the file gives them.
pub enum Coordinates {
    /// Three vertices for each triangle of a binary file.
    Bits(Vec<Point>),
    /// The words of each vertex line of a text file.
    Words(Vec<Vec<String>>),
}

/// What an STL file says of itself.
pub struct StlMeta {
    pub triangle_count: u64,
    pub coordinates: Coordinates,
    /// The name of the solid; only a text file has one.
    pub name: Option<String>,
    /// The header; only a binary file has one.
    pub header: Option<String>,
}

pub enum CoordinatesView {
    Bits(Seq<Point>),
    Words(Seq<Seq<Seq<char>>>),
}

pub struct StlMetaView {
    pub triangle_count: nat,
    pub coordinates: CoordinatesView,
    pub name: Option<Seq<char>>,
    pub header: Option<Seq<char>>,
}

/// The words behind a list of lists of strings.
pub open spec fn word_lists(v: Seq<Vec<String>>) -> Seq<Seq<Seq<char>>> {
    v.map_values(|w: Vec<String>| text::texts(w@))
}

impl View for Coordinates {
    type V = CoordinatesView;

    open spec fn view(&self) -> CoordinatesView {
        match self {
            Coordinates::Bits(p) => CoordinatesView::Bits(p@),
            Coordinates::Words(w) => CoordinatesView::Words(word_lists(w@)),
        }
    }
}

impl View for StlMeta {
    type V = StlMetaView;

    open spec fn view(&self) -> StlMetaView {
        StlMetaView {
            triangle_count: self.triangle_count as nat,
            coordinates: self.coordinates@,
            name: text::text_of(self.name),
            header: text::text_of(self.header),
        }
    }
}

/// How many triangles a binary file claims to hold.
pub open spec fn claimed_count(data: Seq<u8>) -> nat {
    numbers::le_value(data.subrange(80, 84))
}

/// The bytes that a text file starts with.
pub open spec fn solid_bytes() -> Seq<u8> {
    seq![0x73, 0x6f, 0x6c, 0x69, 0x64]
}

/// Whether a file is binary: its size is what its count asks for, or it does not start like
/// a text file.
pub open spec fn binary(data: Seq<u8>) -> bool {
    &&& data.len() >= 84
    &&& {
        ||| data.len() == 84 + 50 * claimed_count(data) && claimed_count(data) > 0
        ||| !solid_bytes().is_prefix_of(data)
    }
}

/// Tests whether a file is binary.
pub fn is_binary(data: &[u8]) -> (r: bool)
    ensures
        r == binary(data@),
{
    if data.len() < 84 {
        return false;
    }
    let claimed: u64 = numbers::read_le(data, 80) as u64;
    let expected: u64 = 84 + claimed * 50;
    if data.len() as u64 == expected && claimed > 0 {
        return true;
    }
    let solid: bool = data[0] == 0x73 && data[1] == 0x6f && data[2] == 0x6c && data[3] == 0x69
        && data[4] == 0x64;
    proof {
        let s = solid_bytes();
        if solid {
            assert(data@.subrange(0, 5) == s);
            assert(s.is_prefix_of(data@));
        } else if s.is_prefix_of(data@) {
            assert forall|i: int| 0 <= i < 5 implies data@[i] == s[i] by {
                assert(data@.subrange(0, 5)[i] == data@[i]);
            }
            assert(s[0] == 0x73 && s[1] == 0x6f && s[2] == 0x6c && s[3] == 0x69 && s[4] == 0x64);
        }
    }
    !solid
}

/// The point at a position of a binary file.
pub open spec fn point_at(data: Seq<u8>, i: int) -> Point {
    Point {
        x: numbers::le_value(data.subrange(i, i + 4)) as u32,
        y: numbers::le_value(data.subrange(i + 4, i + 8)) as u32,
        z: numbers::le_value(data.subrange(i + 8, i + 12)) as u32,
    }
}

/// The vertices of triangle `k` of a binary file, which stand behind its normal.
pub open spec fn record_points(data: Seq<u8>, k: int) -> Seq<Point> {
    let at = 84 + 50 * k + 12;
    seq![point_at(data, at), point_at(data, at + 12), point_at(data, at + 24)]
}

/// The vertices of the first `n` triangles of a binary file.
pub open spec fn binary_points(data: Seq<u8>, n: nat) -> Seq<Point>
    decreases n,
{
    if n == 0 {
        Seq::empty()
    } else {
        binary_points(data, (n - 1) as nat) + record_points(data, n - 1)
    }
}

/// How many triangles of a binary file are there: those it claims, as far as it reaches.
pub open spec fn present_count(data: Seq<u8>) -> nat {
    let room = ((data.len() - 84) / 50) as nat;
    if claimed_count(data) <= room {
        claimed_count(data)
    } else {
        room
    }
}

/// The header as text, without what fills it up; text that is empty, or not UTF-8, is none.
pub open spec fn header_text(data: Seq<u8>) -> Option<Seq<char>> {
    match unicode::utf8_text(data.take(80)) {
        Some(t) => {
            let h = text::trim(text::trim_end(t, CharSet::Nul), CharSet::Space);
            if h.len() > 0 {
                Some(h)
            } else {
                None
            }
        },
        None => None,
    }
}

/// What a binary file says of itself.
pub open spec fn binary_meta(data: Seq<u8>) -> StlMetaView {
    StlMetaView {
        triangle_count: claimed_count(data),
        coordinates: CoordinatesView::Bits(binary_points(data, present_count(data))),
        name: None,
        header: header_text(data),
    }
}

fn read_point(data: &[u8], i: usize) -> (r: Point)
    requires
        i + 12 <= data@.len(),
    ensures
        r == point_at(data@, i as int),
{
    let n: usize = data.len();
    assert(i + 12 <= n);
    Point {
        x: numbers::read_le(data, i),
        y: numbers::read_le(data, i + 4),
        z: numbers::read_le(data, i + 8),
    }
}

fn read_header(data: &[u8]) -> (r: Option<String>)
    requires
        data@.len() >= 84,
    ensures
        text::text_of(r) == header_text(data@),
{
    match unicode::utf8_string(text::slice_to(data, 80)) {
        Some(s) => {
            let all = text::chars_of(s.as_str());
            let body = text::trim_end_chars(all.as_slice(), CharSet::Nul);
            let h = text::trim_chars(body, CharSet::Space);
            if h.len() > 0 {
                Some(text::string_of(h))
            } else {
                None
            }
        },
        None => None,
    }
}

/// Reads a binary file.
pub fn extract_binary(data: &[u8]) -> (r: Result<StlMeta, StlError>)
    ensures
        match r {
            Ok(m) => data@.len() >= 84 && m@ == binary_meta(data@),
            Err(e) => data@.len() < 84 && e == StlError::TooShort,
        },
{
    let n: usize = data.len();
    if n < 84 {
        return Err(StlError::TooShort);
    }
    let header = read_header(data);
    let claimed: u32 = numbers::read_le(data, 80);
    let room: usize = (n - 84) / 50;
    let mut points: Vec<Point> = Vec::new();
    let mut k: usize = 0;
    while k < room && (k as u64) < claimed as u64
        invariant
            n == data@.len(),
            n >= 84,
            room == (n - 84) / 50,
            claimed == claimed_count(data@),
            k <= room,
            k <= claimed,
            points@ == binary_points(data@, k as nat),
        decreases room - k,
    {
        assert(84 + 50 * k + 50 <= n);
        let at: usize = 84 + 50 * k + 12;
        let ghost before = points@;
        points.push(read_point(data, at));
        points.push(read_point(data, at + 12));
        points.push(read_point(data, at + 24));
        assert(points@ == before + record_points(data@, k as int));
        k = k + 1;
    }
    Ok(
        StlMeta {
            triangle_count: claimed as u64,
            coordinates: Coordinates::Bits(points),
            name: None,
            header,
        },
    )
}

/// The lines of a text, without the white space around each.
pub open spec fn lines(t: Seq<char>) -> Seq<Seq<char>> {
    text::split(t, CharSet::LineFeed).map_values(|l: Seq<char>| text::trim(l, CharSet::Space))
}

/// Whether line `i` opens the solid.
pub open spec fn opens_solid(lines: Seq<Seq<char>>, i: int) -> bool {
    i == 0 && "solid"@.is_prefix_of(lines[i])
}

/// Whether line `i` opens a facet.
pub open spec fn opens_facet(lines: Seq<Seq<char>>, i: int) -> bool {
    !opens_solid(lines, i) && "facet normal"@.is_prefix_of(lines[i])
}

/// Whether line `i` holds a vertex.
pub open spec fn holds_vertex(lines: Seq<Seq<char>>, i: int) -> bool {
    !opens_solid(lines, i) && !opens_facet(lines, i) && "vertex "@.is_prefix_of(lines[i])
}

/// The name that the first line gives the solid.
pub open spec fn solid_name(lines: Seq<Seq<char>>) -> Option<Seq<char>> {
    if lines.len() > 0 && opens_solid(lines, 0) {
        let n = text::trim(lines[0].skip(5), CharSet::Space);
        if n.len() > 0 {
            Some(n)
        } else {
            None
        }
    } else {
        None
    }
}

/// How many of the first `n` lines open a facet.
pub open spec fn facet_count(lines: Seq<Seq<char>>, n: nat) -> nat
    decreases n,
{
    if n == 0 {
        0
    } else if opens_facet(lines, n - 1) {
        facet_count(lines, (n - 1) as nat) + 1
    } else {
        facet_count(lines, (n - 1) as nat)
    }
}

/// The words of the vertices among the first `n` lines.
pub open spec fn vertex_words(lines: Seq<Seq<char>>, n: nat) -> Seq<Seq<Seq<char>>>
    decreases n,
{
    if n == 0 {
        Seq::empty()
    } else if holds_vertex(lines, n - 1) {
        vertex_words(lines, (n - 1) as nat).push(text::words(lines[n - 1].skip(7)))
    } else {
        vertex_words(lines, (n - 1) as nat)
    }
}

/// The text of a file; bytes that are not UTF-8 are no text at all.
pub open spec fn file_text(data: Seq<u8>) -> Seq<char> {
    match unicode::utf8_text(data) {
        Some(t) => t,
        None => Seq::empty(),
    }
}

/// What a text file says of itself.
pub open spec fn ascii_meta(data: Seq<u8>) -> StlMetaView {
    let ls = lines(file_text(data));
    StlMetaView {
        triangle_count: facet_count(ls, ls.len()),
        coordinates: CoordinatesView::Words(vertex_words(ls, ls.len())),
        name: solid_name(ls),
        header: None,
    }
}

/// What a file says of itself.
pub open spec fn file_meta(data: Seq<u8>) -> StlMetaView {
    if binary(data) {
        binary_meta(data)
    } else {
        ascii_meta(data)
    }
}

/// The name that the first line gives the solid.
fn read_name(line: &[char]) -> (r: Option<String>)
    requires
        "solid"@.is_prefix_of(line@),
    ensures
        text::text_of(r) == solid_name(seq![line@]),
{
    proof {
        reveal_strlit("solid");
    }
    let n = text::trim_chars(text::slice_from(line, 5), CharSet::Space);
    if n.len() > 0 {
        Some(text::string_of(n))
    } else {
        None
    }
}

/// Reads a text file.
pub fn extract_ascii(data: &[u8]) -> (r: StlMeta)
    ensures
        r@ == ascii_meta(data@),
{
    let content: String = match unicode::utf8_string(data) {
        Some(s) => s,
        None => String::new(),
    };
    let all = text::chars_of(content.as_str());
    let pieces = text::split_chars(all.as_slice(), CharSet::LineFeed);
    let ghost ls = lines(file_text(data@));
    assert(content@ =~= file_text(data@));
    let mut name: Option<String> = None;
    let mut triangles: u64 = 0;
    let mut vertices: Vec<Vec<String>> = Vec::new();
    let mut i: usize = 0;
    proof {
        reveal_strlit("vertex ");
        assert(word_lists(vertices@) == Seq::<Seq<Seq<char>>>::empty());
    }
    while i < pieces.len()
        invariant
            i <= pieces@.len(),
            ls == text::runs(pieces@).map_values(
                |l: Seq<char>| text::trim(l, CharSet::Space),
            ),
            "vertex "@.len() == 7,
            triangles == facet_count(ls, i as nat),
            triangles <= i,
            word_lists(vertices@) == vertex_words(ls, i as nat),
            text::text_of(name) == (if i > 0 {
                solid_name(ls)
            } else {
                None
            }),
        decreases pieces@.len() - i,
    {
        let line = text::trim_chars(pieces[i], CharSet::Space);
        assert(ls[i as int] == line@);
        if i == 0 && text::starts_with(line, "solid") {
            name = read_name(line);
            assert(solid_name(seq![line@]) == solid_name(ls));
        } else if text::starts_with(line, "facet normal") {
            triangles = triangles + 1;
        } else if text::starts_with(line, "vertex ") {
            let words = text::split_words(text::slice_from(line, 7));
            let ghost before = vertices@;
            let w = text::strings_of(words.as_slice());
            vertices.push(w);
            assert(word_lists(vertices@) =~= word_lists(before).push(text::texts(w@)));
        }
        i = i + 1;
    }
    StlMeta {
        triangle_count: triangles,
        coordinates: Coordinates::Words(vertices),
        name,
        header: None,
    }
}

/// Reads an STL file.
pub fn extract(data: &[u8]) -> (r: Result<StlMeta, StlError>)
    ensures
        r matches Ok(m) && m@ == file_meta(data@),
{
    if is_binary(data) {
        extract_binary(data)
    } else {
        Ok(extract_ascii(data))
    }
}

/// The numbers among values, in order.
pub open spec fn only_numbers(values: Seq<Option<u64>>) -> Seq<u64>
    decreases values.len(),
{
    if values.len() == 0 {
        Seq::empty()
    } else {
        match values.last() {
            Some(b) => only_numbers(values.drop_last()).push(b),
            None => only_numbers(values.drop_last()),
        }
    }
}

/// The point of a vertex line, given the numbers that its words are, where they are any: the
/// line counts if it has exactly three of them.
pub open spec fn line_point(values: Seq<Option<u64>>) -> Option<Corner> {
    let n = only_numbers(values);
    if n.len() == 3 {
        Some(Corner { x: n[0], y: n[1], z: n[2] })
    } else {
        None
    }
}

/// Reads the point of a vertex line.
pub fn vertex_point(values: &[Option<u64>]) -> (r: Option<Corner>)
    ensures
        r == line_point(values@),
{
    let mut n: Vec<u64> = Vec::new();
    let mut i: usize = 0;
    assert(values@.take(0) == Seq::<Option<u64>>::empty());
    while i < values.len()
        invariant
            i <= values@.len(),
            n@ == only_numbers(values@.take(i as int)),
        decreases values@.len() - i,
    {
        assert(values@.take(i + 1).drop_last() == values@.take(i as int));
        match values[i] {
            Some(b) => {
                n.push(b);
            },
            None => {},
        }
        i = i + 1;
    }
    assert(values@.take(i as int) == values@);
    if n.len() == 3 {
        Some(Corner { x: n[0], y: n[1], z: n[2] })
    } else {
        None
    }
}

/// The box of the vertices of a file, which a file without triangles does not have.
pub fn extent(triangle_count: u64, points: &[Corner]) -> (r: Option<Bounds>)
    ensures
        r == (if triangle_count > 0 {
            Some(bounds::bounds(points@))
        } else {
            None
        }),
{
    if triangle_count > 0 {
        Some(bounds::find_bounds(points))
    } else {
        None
    }
}

// ---------------------------------------------------------------------------------------
// What holds of text files
// ---------------------------------------------------------------------------------------

/// The positions of the lines that start with a text.
pub open spec fn lines_with(ls: Seq<Seq<char>>, start: Seq<char>) -> Seq<int> {
    lists::positions(ls.len() as int, |i: int| start.is_prefix_of(ls[i]))
}

/// A text cannot start with two texts whose first characters differ.
proof fn lemma_other_start(s: Seq<char>, a: Seq<char>, b: Seq<char>)
    requires
        a.len() > 0,
        b.len() > 0,
        a[0] != b[0],
        a.is_prefix_of(s),
    ensures
        !b.is_prefix_of(s),
{
    assert(s.subrange(0, a.len() as int)[0] == s[0]);
    if b.is_prefix_of(s) {
        assert(s.subrange(0, b.len() as int)[0] == s[0]);
    }
}

/// Which lines open facets and which hold vertices goes by their starts alone.
proof fn lemma_line_kinds(ls: Seq<Seq<char>>, i: int)
    ensures
        opens_facet(ls, i) == "facet normal"@.is_prefix_of(ls[i]),
        holds_vertex(ls, i) == "vertex "@.is_prefix_of(ls[i]),
{
    reveal_strlit("solid");
    reveal_strlit("facet normal");
    reveal_strlit("vertex ");
    if "facet normal"@.is_prefix_of(ls[i]) {
        lemma_other_start(ls[i], "facet normal"@, "solid"@);
        lemma_other_start(ls[i], "facet normal"@, "vertex "@);
    }
    if "vertex "@.is_prefix_of(ls[i]) {
        lemma_other_start(ls[i], "vertex "@, "solid"@);
        lemma_other_start(ls[i], "vertex "@, "facet normal"@);
    }
}

proof fn lemma_counted_lines(ls: Seq<Seq<char>>, n: nat)
    requires
        n <= ls.len(),
    ensures
        facet_count(ls, n) == lists::positions(
            n as int,
            |i: int| "facet normal"@.is_prefix_of(ls[i]),
        ).len(),
        vertex_words(ls, n) == lists::positions(
            n as int,
            |i: int| "vertex "@.is_prefix_of(ls[i]),
        ).map_values(|i: int| text::words(ls[i].skip(7))),
    decreases n,
{
    let q = |i: int| "vertex "@.is_prefix_of(ls[i]);
    let w = |i: int| text::words(ls[i].skip(7));
    if n > 0 {
        lemma_counted_lines(ls, (n - 1) as nat);
        lemma_line_kinds(ls, n - 1);
        let rest = lists::positions(n - 1, q);
        assert(rest.push(n - 1).map_values(w) =~= rest.map_values(w).push(w(n - 1)));
    } else {
        assert(lists::positions(0, q).map_values(w) =~= Seq::<Seq<Seq<char>>>::empty());
    }
}

/// Every line of a text file counts, wherever it stands: there is a triangle for each line that
/// starts with `facet normal`, and for each line that starts with `vertex ` the words behind
/// that are listed, in order.
pub proof fn every_line_counts(data: Seq<u8>)
    ensures
        ({
            let ls = lines(file_text(data));
            let at = lines_with(ls, "vertex "@);
            &&& ascii_meta(data).triangle_count == lines_with(ls, "facet normal"@).len()
            &&& ascii_meta(data).coordinates matches CoordinatesView::Words(w) && w.len()
                == at.len() && forall|k: int|
                0 <= k < at.len() ==> #[trigger] w[k] == text::words(ls[at[k]].skip(7))
        }),
{
    let ls = lines(file_text(data));
    lemma_counted_lines(ls, ls.len());
}

/// The lines of a text are its pieces between line feeds, each without the white space around
/// it; there are as many as the text has line feeds, and one more.
pub proof fn lines_are_pieces(t: Seq<char>, i: int)
    requires
        0 <= i < text::split(t, CharSet::LineFeed).len(),
    ensures
        lines(t).len() == text::split(t, CharSet::LineFeed).len(),
        lines(t)[i] == text::trim(text::split(t, CharSet::LineFeed)[i], CharSet::Space),
{
}

/// The lines of two texts, one below the other, are those of both.
proof fn lemma_lines_below(a: Seq<char>, b: Seq<char>)
    ensures
        lines(a.push('\n') + b) == lines(a) + lines(b),
{
    text::lemma_split_below(a, '\n', b, CharSet::LineFeed);
    assert(lines(a.push('\n') + b) =~= lines(a) + lines(b));
}

/// What the lines of two texts, one below the other, start with.
proof fn lemma_lines_with(a: Seq<Seq<char>>, b: Seq<Seq<char>>, start: Seq<char>)
    ensures
        lines_with(a + b, start) == lines_with(a, start) + lines_with(b, start).map_values(
            |i: int| a.len() + i,
        ),
{
    let all = a + b;
    let m = a.len() as int;
    let n = b.len() as int;
    let p = |i: int| start.is_prefix_of(all[i]);
    lists::positions_add_up(m, n, p);
    lists::lemma_same_positions(m, p, |i: int| start.is_prefix_of(a[i]));
    lists::lemma_same_positions(n, |i: int| p(m + i), |i: int| start.is_prefix_of(b[i]));
    assert(lines_with(b, start).map_values(|i: int| m + i) =~= lines_with(b, start).map_values(
        |i: int| a.len() + i,
    ));
}

/// Two bodies of lines add up: a text file that has one below the other has the triangles and
/// the vertices of both, and the name that the first one gives.
pub proof fn bodies_of_lines_add_up(a: Seq<char>, b: Seq<char>)
    ensures
        ({
            let both = ascii_meta(utf8::encode_utf8(a.push('\n') + b));
            let first = ascii_meta(utf8::encode_utf8(a));
            let second = ascii_meta(utf8::encode_utf8(b));
            &&& both.triangle_count == first.triangle_count + second.triangle_count
            &&& both.coordinates->Words_0 == first.coordinates->Words_0
                + second.coordinates->Words_0
            &&& both.name == first.name
        }),
{
    let t = a.push('\n') + b;
    utf8::encode_utf8_valid_utf8(t);
    utf8::encode_utf8_valid_utf8(a);
    utf8::encode_utf8_valid_utf8(b);
    utf8::encode_utf8_decode_utf8(t);
    utf8::encode_utf8_decode_utf8(a);
    utf8::encode_utf8_decode_utf8(b);
    let la = lines(a);
    let lb = lines(b);
    let all = la + lb;
    lemma_lines_below(a, b);
    lemma_counted_lines(all, all.len());
    lemma_counted_lines(la, la.len());
    lemma_counted_lines(lb, lb.len());
    lemma_lines_with(la, lb, "facet normal"@);
    lemma_lines_with(la, lb, "vertex "@);
    let va = lines_with(la, "vertex "@);
    let vb = lines_with(lb, "vertex "@);
    lists::positions_are_all(la.len() as int, |i: int| "vertex "@.is_prefix_of(la[i]));
    lists::positions_are_all(lb.len() as int, |i: int| "vertex "@.is_prefix_of(lb[i]));
    assert(vertex_words(all, all.len()) =~= vertex_words(la, la.len()) + vertex_words(
        lb,
        lb.len(),
    )) by {
        let w = |i: int| text::words(all[i].skip(7));
        assert forall|k: int| 0 <= k < va.len() implies w(#[trigger] va[k]) == text::words(
            la[va[k]].skip(7),
        ) by {
            assert(all[va[k]] == la[va[k]]);
        }
        assert forall|k: int| 0 <= k < vb.len() implies w(la.len() + #[trigger] vb[k])
            == text::words(lb[vb[k]].skip(7)) by {
            assert(all[la.len() + vb[k]] == lb[vb[k]]);
        }
    }
    assert(all[0] == la[0]);
}

/// The name of a text file is what stands behind `solid` on its first line, without the white
/// space around it, whatever follows on the other lines.
pub proof fn first_line_names_the_solid(line: Seq<char>, body: Seq<char>)
    requires
        !line.contains('\n'),
    ensures
        ({
            let name = ascii_meta(utf8::encode_utf8(line.push('\n') + body)).name;
            let l = text::trim(line, CharSet::Space);
            let n = text::trim(l.skip(5), CharSet::Space);
            if "solid"@.is_prefix_of(l) && n.len() > 0 {
                name == Some(n)
            } else {
                name is None
            }
        }),
{
    let t = line.push('\n') + body;
    utf8::encode_utf8_valid_utf8(t);
    utf8::encode_utf8_decode_utf8(t);
    let clean = |c: char| !CharSet::LineFeed.has(c);
    assert forall|i: int| 0 <= i < line.len() implies clean(#[trigger] line[i]) by {
        assert(line.contains(line[i]));
    }
    text::lemma_split_absent(line, CharSet::LineFeed);
    lemma_lines_below(line, body);
    assert(lines(line) =~= seq![text::trim(line, CharSet::Space)]);
    assert(lines(t)[0] == lines(line)[0]);
}

/// The numbers of a vertex line are those of its words that are any, in order; a line without
/// exactly three of them counts for nothing.
pub proof fn three_numbers_make_a_point(values: Seq<Option<u64>>)
    ensures
        ({
            let at = lists::positions(values.len() as int, |i: int| values[i] is Some);
            if at.len() == 3 {
                line_point(values) == Some(
                    Corner { x: values[at[0]]->0, y: values[at[1]]->0, z: values[at[2]]->0 },
                )
            } else {
                line_point(values) is None
            }
        }),
{
    lemma_only_numbers(values, values.len());
    assert(values.take(values.len() as int) =~= values);
}

proof fn lemma_only_numbers(values: Seq<Option<u64>>, n: nat)
    requires
        n <= values.len(),
    ensures
        only_numbers(values.take(n as int)) == lists::positions(
            n as int,
            |i: int| values[i] is Some,
        ).map_values(|i: int| values[i]->0),
    decreases n,
{
    let p = |i: int| values[i] is Some;
    let v = |i: int| values[i]->0;
    if n > 0 {
        lemma_only_numbers(values, (n - 1) as nat);
        assert(values.take(n as int).drop_last() =~= values.take(n - 1));
        let rest = lists::positions(n - 1, p);
        assert(rest.push(n - 1).map_values(v) =~= rest.map_values(v).push(v(n - 1)));
    } else {
        assert(lists::positions(0, p).map_values(v) =~= Seq::<u64>::empty());
        assert(values.take(0) =~= Seq::<Option<u64>>::empty());
    }
}

// ---------------------------------------------------------------------------------------
// What holds of binary files
// ---------------------------------------------------------------------------------------

/// The count of a binary file is the number in its four bytes behind the header, the lowest
/// first.
pub proof fn the_count_stands_behind_the_header(data: Seq<u8>)
    requires
        data.len() >= 84,
    ensures
        binary_meta(data).triangle_count == data[80] + 0x100 * data[81] + 0x1_0000 * data[82]
            + 0x100_0000 * data[83],
{
    numbers::le_value_of_four(data.subrange(80, 84));
}

/// A binary file lists the three vertices of each triangle that it both claims and holds
/// whole: as many as fit, and no more than are claimed.
pub proof fn whole_triangles_are_read(data: Seq<u8>, n: nat)
    requires
        data.len() >= 84,
        n <= binary_meta(data).triangle_count,
        84 + 50 * n <= data.len(),
        n == binary_meta(data).triangle_count || data.len() < 84 + 50 * (n + 1),
    ensures
        ({
            let points = binary_meta(data).coordinates->Bits_0;
            &&& binary_meta(data).coordinates is Bits
            &&& points.len() == 3 * n
            &&& forall|k: int|
                0 <= k < points.len() ==> #[trigger] points[k] == point_at(
                    data,
                    84 + 50 * (k / 3) + 12 + 12 * (k % 3),
                )
        }),
{
    assert(present_count(data) == n);
    lemma_binary_points(data, n);
}

proof fn lemma_binary_points(data: Seq<u8>, n: nat)
    ensures
        binary_points(data, n).len() == 3 * n,
        forall|k: int|
            0 <= k < 3 * n ==> #[trigger] binary_points(data, n)[k] == point_at(
                data,
                84 + 50 * (k / 3) + 12 + 12 * (k % 3),
            ),
    decreases n,
{
    if n > 0 {
        lemma_binary_points(data, (n - 1) as nat);
        let rest = binary_points(data, (n - 1) as nat);
        let last = record_points(data, n - 1);
        assert forall|k: int| 0 <= k < 3 * n implies #[trigger] binary_points(data, n)[k]
            == point_at(data, 84 + 50 * (k / 3) + 12 + 12 * (k % 3)) by {
            if k < 3 * (n - 1) {
                assert(binary_points(data, n)[k] == rest[k]);
            } else {
                assert(k / 3 == n - 1);
                assert(binary_points(data, n)[k] == last[k - 3 * (n - 1)]);
            }
        }
    }
}

/// A point is three numbers of four bytes, the lowest first.
pub proof fn points_are_three_numbers(data: Seq<u8>, i: int)
    requires
        0 <= i,
        i + 12 <= data.len(),
    ensures
        point_at(data, i).x == data[i] + 0x100 * data[i + 1] + 0x1_0000 * data[i + 2] + 0x100_0000
            * data[i + 3],
        point_at(data, i).y == data[i + 4] + 0x100 * data[i + 5] + 0x1_0000 * data[i + 6]
            + 0x100_0000 * data[i + 7],
        point_at(data, i).z == data[i + 8] + 0x100 * data[i + 9] + 0x1_0000 * data[i + 10]
            + 0x100_0000 * data[i + 11],
{
    numbers::le_value_of_four(data.subrange(i, i + 4));
    numbers::le_value_of_four(data.subrange(i + 4, i + 8));
    numbers::le_value_of_four(data.subrange(i + 8, i + 12));
}

/// A header is read back from the eighty bytes it is put into, with zeros behind it.
pub proof fn headers_read_back(h: Seq<char>, fill: Seq<u8>, rest: Seq<u8>)
    requires
        h.len() > 0,
        !CharSet::Space.has(h[0]),
        !CharSet::Space.has(h.last()),
        !CharSet::Nul.has(h.last()),
        utf8::encode_utf8(h).len() + fill.len() == 80,
        forall|i: int| 0 <= i < fill.len() ==> #[trigger] fill[i] == 0,
    ensures
        binary_meta(utf8::encode_utf8(h) + fill + rest).header == Some(h),
        binary_meta(utf8::encode_utf8(h) + fill + rest).name is None,
{
    let nuls = Seq::new(fill.len(), |i: int| '\0');
    let t = h + nuls;
    let data = utf8::encode_utf8(h) + fill + rest;
    utf8::is_ascii_chars_encode_utf8(nuls);
    assert(utf8::encode_utf8(nuls) =~= fill) by {
        assert forall|i: int| 0 <= i < fill.len() implies utf8::encode_utf8(nuls)[i] == fill[i] by {
            assert(nuls[i] as u8 == utf8::encode_utf8(nuls)[i]);
        }
    }
    lemma_encode_concat(h, nuls);
    assert(data.take(80) =~= utf8::encode_utf8(t));
    utf8::encode_utf8_valid_utf8(t);
    utf8::encode_utf8_decode_utf8(t);
    lemma_trim_fill(h, fill.len());
    assert(text::trim_start(h, CharSet::Space) == h);
}

/// What two texts one behind the other are encoded to.
proof fn lemma_encode_concat(a: Seq<char>, b: Seq<char>)
    ensures
        utf8::encode_utf8(a + b) == utf8::encode_utf8(a) + utf8::encode_utf8(b),
    decreases a.len(),
{
    if a.len() == 0 {
        assert(a + b =~= b);
        assert(utf8::encode_utf8(a) + utf8::encode_utf8(b) =~= utf8::encode_utf8(b));
    } else {
        let rest = a.drop_first();
        lemma_encode_concat(rest, b);
        assert((a + b).drop_first() =~= rest + b);
        assert((a + b)[0] == a[0]);
        let head = utf8::encode_scalar(a[0] as u32);
        assert(head + (utf8::encode_utf8(rest) + utf8::encode_utf8(b)) =~= (head
            + utf8::encode_utf8(rest)) + utf8::encode_utf8(b));
    }
}

proof fn lemma_trim_fill(h: Seq<char>, n: nat)
    requires
        h.len() > 0,
        !CharSet::Nul.has(h.last()),
    ensures
        text::trim_end(h + Seq::new(n, |i: int| '\0'), CharSet::Nul) == h,
    decreases n,
{
    let s = h + Seq::new(n, |i: int| '\0');
    if n > 0 {
        assert(s.last() == '\0');
        assert(s.drop_last() =~= h + Seq::new((n - 1) as nat, |i: int| '\0'));
        lemma_trim_fill(h, (n - 1) as nat);
    } else {
        assert(s =~= h);
    }
}

/// A file is taken for a binary one where its size is what its count asks for, or where it
/// does not start with the five letters of `solid`; a file too short for a count is text.
pub proof fn size_or_start_tells_the_kind(data: Seq<u8>)
    ensures
        data.len() < 84 ==> file_meta(data) == ascii_meta(data),
        data.len() >= 84 && (data[0] != 0x73 || data[1] != 0x6f || data[2] != 0x6c || data[3]
            != 0x69 || data[4] != 0x64) ==> file_meta(data) == binary_meta(data),
        data.len() >= 84 && data.len() == 84 + 50 * binary_meta(data).triangle_count
            && data.len() > 84 ==> file_meta(data) == binary_meta(data),
        data.len() >= 84 && data.len() != 84 + 50 * binary_meta(data).triangle_count && data[0]
            == 0x73 && data[1] == 0x6f && data[2] == 0x6c && data[3] == 0x69 && data[4] == 0x64
            ==> file_meta(data) == ascii_meta(data),
{
    let s = solid_bytes();
    if data.len() >= 84 {
        if s.is_prefix_of(data) {
            assert forall|i: int| 0 <= i < 5 implies data[i] == s[i] by {
                assert(data.subrange(0, 5)[i] == data[i]);
            }
            assert(s[0] == 0x73 && s[1] == 0x6f && s[2] == 0x6c && s[3] == 0x69 && s[4] == 0x64);
        }
        if data[0] == 0x73 && data[1] == 0x6f && data[2] == 0x6c && data[3] == 0x69 && data[4]
            == 0x64 {
            assert(data.subrange(0, 5) =~= s);
        }
    }
}

/// Text that is not UTF-8 says nothing.
pub proof fn broken_text_says_nothing(data: Seq<u8>)
    requires
        !utf8::valid_utf8(data),
    ensures
        ascii_meta(data).triangle_count == 0,
        ascii_meta(data).coordinates == CoordinatesView::Words(Seq::empty()),
        ascii_meta(data).name is None,
{
    let none = Seq::<char>::empty();
    text::lemma_split_absent(none, CharSet::LineFeed);
    assert(lines(none) =~= seq![none]);
    reveal_strlit("solid");
    reveal_strlit("facet normal");
    reveal_strlit("vertex ");
    lemma_line_kinds(lines(none), 0);
    reveal_with_fuel(facet_count, 2);
    reveal_with_fuel(vertex_words, 2);
}

/// Text is read as it is written.
pub proof fn text_is_read_as_it_is(t: Seq<char>)
    ensures
        file_text(utf8::encode_utf8(t)) == t,
{
    utf8::encode_utf8_valid_utf8(t);
    utf8::encode_utf8_decode_utf8(t);
}

/// A file that is all header, with a count of zero, is told by its start alone: text starts with
/// `solid`.
pub proof fn empty_files_go_by_their_start(data: Seq<u8>)
    requires
        data.len() == 84,
        data[80] == 0,
        data[81] == 0,
        data[82] == 0,
        data[83] == 0,
    ensures
        binary(data) <==> !(data[0] == 0x73 && data[1] == 0x6f && data[2] == 0x6c && data[3] == 0x69
            && data[4] == 0x64),
{
    let count = data.subrange(80, 84);
    assert(count[0] == 0 && count[1] == 0 && count[2] == 0 && count[3] == 0);
    let s = solid_bytes();
    if s.is_prefix_of(data) {
        assert(data.subrange(0, 5) == s);
        assert(data.subrange(0, 5)[0] == data[0] && data.subrange(0, 5)[1] == data[1]
            && data.subrange(0, 5)[2] == data[2] && data.subrange(0, 5)[3] == data[3]
            && data.subrange(0, 5)[4] == data[4]);
    }
    if data[0] == 0x73 && data[1] == 0x6f && data[2] == 0x6c && data[3] == 0x69 && data[4] == 0x64 {
        assert(data.subrange(0, 5) =~= s);
    }
}

} // verus!
