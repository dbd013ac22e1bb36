//! Triangles as a binary STL file.

use vstd::prelude::*;
use vstd::utf8;

use crate::formats::mesh::Triangle;
use crate::formats::stl;
use crate::formats::stl::Point;
use crate::numbers;
use crate::text;
use crate::text::CharSet;

verus! {

/// `n` bytes that are zero.
pub open spec fn zeros(n: nat) -> Seq<u8> {
    Seq::new(n, |i: int| 0u8)
}

/// The bytes of a point.
pub open spec fn point_bytes(p: Point) -> Seq<u8> {
    numbers::le_bytes(p.x) + numbers::le_bytes(p.y) + numbers::le_bytes(p.z)
}

/// The point of a corner; a corner that names no vertex is the origin.
pub open spec fn corner_point(verts: Seq<Point>, i: u32) -> Point {
    if i < verts.len() {
        verts[i as int]
    } else {
        Point { x: 0, y: 0, z: 0 }
    }
}

/// The bytes of a triangle: no normal, three points and no attributes.
pub open spec fn triangle_bytes(verts: Seq<Point>, t: Triangle) -> Seq<u8> {
    zeros(12) + point_bytes(corner_point(verts, t.v1)) + point_bytes(corner_point(verts, t.v2))
        + point_bytes(corner_point(verts, t.v3)) + zeros(2)
}

/// The bytes of triangles, one after another.
pub open spec fn triangles_bytes(verts: Seq<Point>, tris: Seq<Triangle>) -> Seq<u8>
    decreases tris.len(),
{
    if tris.len() == 0 {
        Seq::empty()
    } else {
        triangles_bytes(verts, tris.drop_last()) + triangle_bytes(verts, tris.last())
    }
}

/// The bytes of a binary STL file: an empty header, the count and the triangles.
pub open spec fn stl_bytes(verts: Seq<Point>, tris: Seq<Triangle>) -> Seq<u8> {
    zeros(80) + numbers::le_bytes((tris.len() % 0x1_0000_0000) as u32) + triangles_bytes(
        verts,
        tris,
    )
}

fn push_zeros(out: &mut Vec<u8>, n: usize)
    ensures
        final(out)@ == old(out)@ + zeros(n as nat),
{
    let mut i: usize = 0;
    while i < n
        invariant
            i <= n,
            out@ == old(out)@ + zeros(i as nat),
        decreases n - i,
    {
        assert(zeros((i + 1) as nat) =~= zeros(i as nat).push(0u8));
        out.push(0);
        i = i + 1;
    }
}

fn push_corner(out: &mut Vec<u8>, verts: &[Point], i: u32)
    ensures
        final(out)@ == old(out)@ + point_bytes(corner_point(verts@, i)),
{
    let p: Point = if (i as u64) < verts.len() as u64 {
        verts[i as usize]
    } else {
        Point { x: 0, y: 0, z: 0 }
    };
    numbers::push_le(out, p.x);
    numbers::push_le(out, p.y);
    numbers::push_le(out, p.z);
}

fn push_triangle(out: &mut Vec<u8>, verts: &[Point], t: Triangle)
    ensures
        final(out)@ == old(out)@ + triangle_bytes(verts@, t),
{
    push_zeros(out, 12);
    push_corner(out, verts, t.v1);
    push_corner(out, verts, t.v2);
    push_corner(out, verts, t.v3);
    push_zeros(out, 2);
}

/// Writes triangles over vertices as a binary STL file.
pub fn write_binary_stl(verts: &[Point], tris: &[Triangle]) -> (r: Vec<u8>)
    ensures
        r@ == stl_bytes(verts@, tris@),
{
    let mut out: Vec<u8> = Vec::new();
    push_zeros(&mut out, 80);
    numbers::push_le(&mut out, (tris.len() as u64 % 0x1_0000_0000) as u32);
    let ghost start = out@;
    let mut i: usize = 0;
    assert(tris@.take(0) == Seq::<Triangle>::empty());
    while i < tris.len()
        invariant
            i <= tris@.len(),
            out@ == start + triangles_bytes(verts@, tris@.take(i as int)),
        decreases tris@.len() - i,
    {
        assert(tris@.take(i + 1).drop_last() == tris@.take(i as int));
        assert(tris@.take(i + 1).last() == tris@[i as int]);
        push_triangle(&mut out, verts, tris[i]);
        i = i + 1;
    }
    assert(tris@.take(i as int) == tris@);
    out
}

// ---------------------------------------------------------------------------------------
// What reading gives back of writing
// ---------------------------------------------------------------------------------------

/// The points of the corners of a triangle.
pub open spec fn triangle_points(verts: Seq<Point>, t: Triangle) -> Seq<Point> {
    seq![corner_point(verts, t.v1), corner_point(verts, t.v2), corner_point(verts, t.v3)]
}

/// The points of the corners of triangles, one triangle after another.
pub open spec fn corner_points(verts: Seq<Point>, tris: Seq<Triangle>) -> Seq<Point>
    decreases tris.len(),
{
    if tris.len() == 0 {
        Seq::empty()
    } else {
        corner_points(verts, tris.drop_last()) + triangle_points(verts, tris.last())
    }
}

/// A triangle takes fifty bytes.
proof fn lemma_triangle_size(verts: Seq<Point>, t: Triangle)
    ensures
        triangle_bytes(verts, t).len() == 50,
{
    assert(point_bytes(corner_point(verts, t.v1)).len() == 12);
    assert(point_bytes(corner_point(verts, t.v2)).len() == 12);
    assert(point_bytes(corner_point(verts, t.v3)).len() == 12);
}

/// Each triangle takes fifty bytes.
proof fn lemma_triangles_size(verts: Seq<Point>, tris: Seq<Triangle>)
    ensures
        triangles_bytes(verts, tris).len() == 50 * tris.len(),
    decreases tris.len(),
{
    if tris.len() > 0 {
        lemma_triangles_size(verts, tris.drop_last());
        lemma_triangle_size(verts, tris.last());
    }
}

/// Bytes keep their place when others are added behind them, and those others stand at the end.
proof fn lemma_joined_place(front: Seq<u8>, back: Seq<u8>, i: int, j: int)
    requires
        0 <= i <= j <= front.len(),
    ensures
        (front + back).subrange(i, j) == front.subrange(i, j),
        (front + back).skip(front.len() as int) == back,
{
}

/// Each triangle stands at its place.
proof fn lemma_triangle_place(verts: Seq<Point>, tris: Seq<Triangle>, k: int)
    requires
        0 <= k < tris.len(),
    ensures
        triangles_bytes(verts, tris).subrange(50 * k, 50 * k + 50) == triangle_bytes(
            verts,
            tris[k],
        ),
    decreases tris.len(),
{
    let rest = tris.drop_last();
    let front = triangles_bytes(verts, rest);
    let back = triangle_bytes(verts, tris.last());
    lemma_triangles_size(verts, rest);
    lemma_triangle_size(verts, tris.last());
    if k < rest.len() {
        lemma_triangle_place(verts, rest, k);
        lemma_joined_place(front, back, 50 * k, 50 * k + 50);
    } else {
        lemma_joined_place(front, back, 0, 0);
        assert(50 * k == front.len());
        assert((front + back).subrange(50 * k, 50 * k + 50) == (front + back).skip(50 * k));
    }
}

/// A point that was written is read back.
proof fn lemma_point_back(data: Seq<u8>, i: int, p: Point)
    requires
        0 <= i,
        i + 12 <= data.len(),
        data.subrange(i, i + 12) == point_bytes(p),
    ensures
        stl::point_at(data, i) == p,
{
    let b = data.subrange(i, i + 12);
    assert(data.subrange(i, i + 4) == b.subrange(0, 4));
    assert(data.subrange(i + 4, i + 8) == b.subrange(4, 8));
    assert(data.subrange(i + 8, i + 12) == b.subrange(8, 12));
    assert(point_bytes(p).subrange(0, 4) == numbers::le_bytes(p.x));
    assert(point_bytes(p).subrange(4, 8) == numbers::le_bytes(p.y));
    assert(point_bytes(p).subrange(8, 12) == numbers::le_bytes(p.z));
    numbers::lemma_le_round_trip(p.x);
    numbers::lemma_le_round_trip(p.y);
    numbers::lemma_le_round_trip(p.z);
}

/// A part of a part is a part.
proof fn lemma_inner_part(data: Seq<u8>, at: int, end: int, i: int, j: int)
    requires
        0 <= at <= end <= data.len(),
        0 <= i <= j <= end - at,
    ensures
        data.subrange(at + i, at + j) == data.subrange(at, end).subrange(i, j),
{
}

/// Where the parts of a triangle stand.
proof fn lemma_inner_parts(a: Seq<u8>, b: Seq<u8>, c: Seq<u8>, d: Seq<u8>, e: Seq<u8>)
    requires
        a.len() == 12,
        b.len() == 12,
        c.len() == 12,
        d.len() == 12,
    ensures
        (a + b + c + d + e).subrange(12, 24) == b,
        (a + b + c + d + e).subrange(24, 36) == c,
        (a + b + c + d + e).subrange(36, 48) == d,
{
}

/// A point takes twelve bytes.
proof fn lemma_point_size(p: Point)
    ensures
        point_bytes(p).len() == 12,
{
}

/// The points of a triangle are read back from its bytes, wherever they stand.
proof fn lemma_corners_back(data: Seq<u8>, at: int, p: Point, q: Point, r: Point)
    requires
        0 <= at,
        at + 50 <= data.len(),
        data.subrange(at, at + 50) == zeros(12) + point_bytes(p) + point_bytes(q) + point_bytes(r)
            + zeros(2),
    ensures
        stl::point_at(data, at + 12) == p,
        stl::point_at(data, at + 24) == q,
        stl::point_at(data, at + 36) == r,
{
    lemma_point_size(p);
    lemma_point_size(q);
    lemma_point_size(r);
    lemma_inner_parts(zeros(12), point_bytes(p), point_bytes(q), point_bytes(r), zeros(2));
    lemma_inner_part(data, at, at + 50, 12, 24);
    lemma_inner_part(data, at, at + 50, 24, 36);
    lemma_inner_part(data, at, at + 50, 36, 48);
    lemma_point_back(data, at + 12, p);
    lemma_point_back(data, at + 24, q);
    lemma_point_back(data, at + 36, r);
}

/// Bytes behind a front of some size stand that much further on.
proof fn lemma_behind(front: Seq<u8>, back: Seq<u8>, i: int, j: int)
    requires
        0 <= i <= j <= back.len(),
    ensures
        (front + back).subrange(front.len() + i, front.len() + j) == back.subrange(i, j),
{
}

/// The bytes of a triangle stand at its place in the file.
proof fn lemma_record_place(verts: Seq<Point>, tris: Seq<Triangle>, k: int)
    requires
        0 <= k < tris.len(),
    ensures
        84 + 50 * k + 50 <= stl_bytes(verts, tris).len(),
        stl_bytes(verts, tris).subrange(84 + 50 * k, 84 + 50 * k + 50) == triangle_bytes(
            verts,
            tris[k],
        ),
{
    let head = zeros(80) + numbers::le_bytes((tris.len() % 0x1_0000_0000) as u32);
    assert(head.len() == 84);
    lemma_triangles_size(verts, tris);
    lemma_triangle_place(verts, tris, k);
    lemma_behind(head, triangles_bytes(verts, tris), 50 * k, 50 * k + 50);
}

/// The points of a triangle that was written are read back.
proof fn lemma_record_back(verts: Seq<Point>, tris: Seq<Triangle>, k: int)
    requires
        0 <= k < tris.len(),
    ensures
        stl::record_points(stl_bytes(verts, tris), k) == triangle_points(verts, tris[k]),
{
    let t = tris[k];
    lemma_record_place(verts, tris, k);
    lemma_corners_back(
        stl_bytes(verts, tris),
        84 + 50 * k,
        corner_point(verts, t.v1),
        corner_point(verts, t.v2),
        corner_point(verts, t.v3),
    );
}

/// The points of the first triangles that were written are read back.
proof fn lemma_points_back(verts: Seq<Point>, tris: Seq<Triangle>, n: nat)
    requires
        n <= tris.len(),
    ensures
        stl::binary_points(stl_bytes(verts, tris), n) == corner_points(
            verts,
            tris.take(n as int),
        ),
    decreases n,
{
    if n > 0 {
        lemma_points_back(verts, tris, (n - 1) as nat);
        lemma_record_back(verts, tris, n - 1);
        assert(tris.take(n as int).drop_last() == tris.take(n - 1));
        assert(tris.take(n as int).last() == tris[n - 1]);
    }
}

/// Nothing is left of characters that are all trimmed.
proof fn lemma_trim_all(s: Seq<char>, set: CharSet)
    requires
        forall|i: int| 0 <= i < s.len() ==> set.has(#[trigger] s[i]),
    ensures
        text::trim_end(s, set).len() == 0,
    decreases s.len(),
{
    if s.len() > 0 {
        lemma_trim_all(s.drop_last(), set);
    }
}

/// A header of zeros is no header.
proof fn lemma_no_header(data: Seq<u8>)
    requires
        data.len() >= 80,
        data.take(80) == zeros(80),
    ensures
        stl::header_text(data) is None,
{
    let chars = Seq::new(80, |i: int| '\0');
    utf8::is_ascii_chars_encode_utf8(chars);
    utf8::encode_utf8_decode_utf8(chars);
    utf8::encode_utf8_valid_utf8(chars);
    assert(utf8::encode_utf8(chars) =~= zeros(80)) by {
        assert forall|i: int| 0 <= i < 80 implies utf8::encode_utf8(chars)[i] == 0u8 by {
            assert(chars[i] as u8 == utf8::encode_utf8(chars)[i]);
        }
    }
    lemma_trim_all(chars, CharSet::Nul);
    let none = text::trim_end(chars, CharSet::Nul);
    assert(text::trim(none, CharSet::Space).len() == 0);
}

/// Where the middle one of three parts stands.
proof fn lemma_middle_part(a: Seq<u8>, b: Seq<u8>, c: Seq<u8>)
    ensures
        (a + b + c).subrange(a.len() as int, (a.len() + b.len()) as int) == b,
        (a + b + c).len() == a.len() + b.len() + c.len(),
{
}

/// The size of a file that was written, and the count in it.
proof fn lemma_count_back(verts: Seq<Point>, tris: Seq<Triangle>)
    requires
        tris.len() <= u32::MAX,
    ensures
        stl_bytes(verts, tris).len() == 84 + 50 * tris.len(),
        stl::claimed_count(stl_bytes(verts, tris)) == tris.len(),
        stl::present_count(stl_bytes(verts, tris)) == tris.len(),
{
    let data = stl_bytes(verts, tris);
    let n = tris.len() as u32;
    let count = numbers::le_bytes(n);
    lemma_triangles_size(verts, tris);
    numbers::lemma_le_round_trip(n);
    assert(tris.len() % 0x1_0000_0000 == tris.len());
    lemma_middle_part(zeros(80), count, triangles_bytes(verts, tris));
    assert(data.subrange(80, 84) == count);
}

/// A file that was written starts with a header of zeros.
proof fn lemma_header_back(verts: Seq<Point>, tris: Seq<Triangle>)
    ensures
        stl_bytes(verts, tris).len() >= 84,
        stl::header_text(stl_bytes(verts, tris)) is None,
        !stl::solid_bytes().is_prefix_of(stl_bytes(verts, tris)),
{
    let data = stl_bytes(verts, tris);
    assert(data.take(80) == zeros(80));
    lemma_no_header(data);
    assert(data[0] == zeros(80)[0]);
    assert(stl::solid_bytes()[0] == 0x73);
    if stl::solid_bytes().is_prefix_of(data) {
        assert(data.subrange(0, 5)[0] == data[0]);
    }
}

/// What is written as a binary STL file is read back from it: the file is taken for a binary
/// one, and has as many triangles, with the same points at their corners.
pub proof fn written_file_reads_back(verts: Seq<Point>, tris: Seq<Triangle>)
    requires
        tris.len() <= u32::MAX,
    ensures
        stl::binary(stl_bytes(verts, tris)),
        stl::file_meta(stl_bytes(verts, tris)) == (stl::StlMetaView {
            triangle_count: tris.len(),
            coordinates: stl::CoordinatesView::Bits(corner_points(verts, tris)),
            name: None,
            header: None,
        }),
{
    lemma_count_back(verts, tris);
    lemma_header_back(verts, tris);
    lemma_points_back(verts, tris, tris.len());
    assert(tris.take(tris.len() as int) == tris);
}

/// The points of a file are the corners of its triangles, three for each, in their order; a
/// corner that names no vertex is the origin.
pub proof fn points_are_the_corners(verts: Seq<Point>, tris: Seq<Triangle>, k: int)
    requires
        0 <= k < tris.len(),
    ensures
        corner_points(verts, tris).len() == 3 * tris.len(),
        tris[k].v1 < verts.len() ==> corner_points(verts, tris)[3 * k] == verts[tris[k].v1 as int],
        tris[k].v2 < verts.len() ==> corner_points(verts, tris)[3 * k + 1]
            == verts[tris[k].v2 as int],
        tris[k].v3 < verts.len() ==> corner_points(verts, tris)[3 * k + 2]
            == verts[tris[k].v3 as int],
        tris[k].v1 >= verts.len() ==> corner_points(verts, tris)[3 * k] == (Point {
            x: 0,
            y: 0,
            z: 0,
        }),
        tris[k].v2 >= verts.len() ==> corner_points(verts, tris)[3 * k + 1] == (Point {
            x: 0,
            y: 0,
            z: 0,
        }),
        tris[k].v3 >= verts.len() ==> corner_points(verts, tris)[3 * k + 2] == (Point {
            x: 0,
            y: 0,
            z: 0,
        }),
    decreases tris.len(),
{
    let rest = tris.drop_last();
    if k < rest.len() {
        points_are_the_corners(verts, rest, k);
        assert(rest[k] == tris[k]);
    } else if rest.len() > 0 {
        points_are_the_corners(verts, rest, 0);
    } else {
        assert(corner_points(verts, rest).len() == 0);
    }
}

} // verus!
