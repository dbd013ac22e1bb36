//! Bounding boxes of points whose coordinates are given as IEEE 754 doubles, bit by bit.
//!
//! The order of doubles is decided on their bits, so that the box of a set of points is found
//! without any floating-point arithmetic.

use vstd::prelude::*;

verus! {

/// The bits of the greatest finite double.
pub const GREATEST: u64 = 0x7fef_ffff_ffff_ffff;

/// The bits of the least finite double.
pub const LEAST: u64 = 0xffef_ffff_ffff_ffff;

/// Three coordinates, each as the bits of a double.
#[derive(Clone, Copy, PartialEq, Eq, Structural, Debug)]
pub struct Corner {
    pub x: u64,
    pub y: u64,
    pub z: u64,
}

/// The least and the greatest coordinates of a set of points.
#[derive(Clone, Copy, PartialEq, Eq, Structural, Debug)]
pub struct Bounds {
    pub low: Corner,
    pub high: Corner,
}

/// Whether the bits are those of no number.
pub open spec fn is_nan(bits: u64) -> bool {
    bits % 0x8000_0000_0000_0000 > 0x7ff0_0000_0000_0000
}

/// A whole number for each double that is a number, in the order of the doubles.
pub open spec fn rank(bits: u64) -> int {
    if bits < 0x8000_0000_0000_0000 {
        bits as int
    } else {
        0x8000_0000_0000_0000 - bits
    }
}

/// The lesser of two doubles; what is no number is passed over.
pub open spec fn lesser(a: u64, b: u64) -> u64 {
    if !is_nan(b) && rank(b) < rank(a) {
        b
    } else {
        a
    }
}

/// The greater of two doubles; what is no number is passed over.
pub open spec fn greater(a: u64, b: u64) -> u64 {
    if !is_nan(b) && rank(b) > rank(a) {
        b
    } else {
        a
    }
}

/// The corner with the lesser of each two coordinates.
pub open spec fn lower(a: Corner, b: Corner) -> Corner {
    Corner { x: lesser(a.x, b.x), y: lesser(a.y, b.y), z: lesser(a.z, b.z) }
}

/// The corner with the greater of each two coordinates.
pub open spec fn higher(a: Corner, b: Corner) -> Corner {
    Corner { x: greater(a.x, b.x), y: greater(a.y, b.y), z: greater(a.z, b.z) }
}

/// The box of points. The box of no points is inside out: it runs from the greatest finite
/// double to the least.
pub open spec fn bounds(points: Seq<Corner>) -> Bounds
    decreases points.len(),
{
    if points.len() == 0 {
        Bounds {
            low: Corner { x: GREATEST, y: GREATEST, z: GREATEST },
            high: Corner { x: LEAST, y: LEAST, z: LEAST },
        }
    } else {
        let rest = bounds(points.drop_last());
        Bounds {
            low: lower(rest.low, points.last()),
            high: higher(rest.high, points.last()),
        }
    }
}

/// Whether a coordinate is no number or lies in a range.
pub open spec fn within(low: u64, c: u64, high: u64) -> bool {
    is_nan(c) || rank(low) <= rank(c) <= rank(high)
}

/// The box of points holds every one of them.
pub proof fn bounds_hold_points(points: Seq<Corner>, i: int)
    requires
        0 <= i < points.len(),
    ensures
        within(bounds(points).low.x, points[i].x, bounds(points).high.x),
        within(bounds(points).low.y, points[i].y, bounds(points).high.y),
        within(bounds(points).low.z, points[i].z, bounds(points).high.z),
    decreases points.len(),
{
    if i < points.len() - 1 {
        bounds_hold_points(points.drop_last(), i);
    }
}

fn min_bits(a: u64, b: u64) -> (r: u64)
    ensures
        r == lesser(a, b),
{
    if !nan_bits(b) && below(b, a) {
        b
    } else {
        a
    }
}

fn max_bits(a: u64, b: u64) -> (r: u64)
    ensures
        r == greater(a, b),
{
    if !nan_bits(b) && below(a, b) {
        b
    } else {
        a
    }
}

fn nan_bits(bits: u64) -> (r: bool)
    ensures
        r == is_nan(bits),
{
    bits % 0x8000_0000_0000_0000 > 0x7ff0_0000_0000_0000
}

fn below(a: u64, b: u64) -> (r: bool)
    ensures
        r == (rank(a) < rank(b)),
{
    let sign: u64 = 0x8000_0000_0000_0000;
    if a < sign && b < sign {
        a < b
    } else if a < sign {
        false
    } else if b < sign {
        a > sign || b > 0
    } else {
        a > b
    }
}

/// Finds the box of points.
pub fn find_bounds(points: &[Corner]) -> (r: Bounds)
    ensures
        r == bounds(points@),
{
    let mut low = Corner { x: GREATEST, y: GREATEST, z: GREATEST };
    let mut high = Corner { x: LEAST, y: LEAST, z: LEAST };
    let mut i: usize = 0;
    assert(points@.take(0) == Seq::<Corner>::empty());
    while i < points.len()
        invariant
            i <= points@.len(),
            bounds(points@.take(i as int)) == (Bounds { low, high }),
        decreases points@.len() - i,
    {
        assert(points@.take(i + 1).drop_last() == points@.take(i as int));
        let p: Corner = points[i];
        low =
        Corner { x: min_bits(low.x, p.x), y: min_bits(low.y, p.y), z: min_bits(low.z, p.z) };
        high =
        Corner { x: max_bits(high.x, p.x), y: max_bits(high.y, p.y), z: max_bits(high.z, p.z) };
        i = i + 1;
    }
    assert(points@.take(i as int) == points@);
    Bounds { low, high }
}

/// Whether a double is the start value or one of the coordinates that `f` picks.
pub open spec fn is_one_of(bits: u64, start: u64, points: Seq<Corner>, f: spec_fn(Corner) -> u64) -> bool {
    bits == start || exists|i: int| 0 <= i < points.len() && bits == f(#[trigger] points[i])
}

/// The box of points is no larger than it has to be: each of its sides goes through a point,
/// or is where the box of no points has it.
pub proof fn bounds_touch_points(points: Seq<Corner>)
    ensures
        is_one_of(bounds(points).low.x, GREATEST, points, |c: Corner| c.x),
        is_one_of(bounds(points).low.y, GREATEST, points, |c: Corner| c.y),
        is_one_of(bounds(points).low.z, GREATEST, points, |c: Corner| c.z),
        is_one_of(bounds(points).high.x, LEAST, points, |c: Corner| c.x),
        is_one_of(bounds(points).high.y, LEAST, points, |c: Corner| c.y),
        is_one_of(bounds(points).high.z, LEAST, points, |c: Corner| c.z),
    decreases points.len(),
{
    if points.len() > 0 {
        let rest = points.drop_last();
        bounds_touch_points(rest);
        lemma_one_more(bounds(points).low.x, bounds(rest).low.x, GREATEST, points, |c: Corner| c.x);
        lemma_one_more(bounds(points).low.y, bounds(rest).low.y, GREATEST, points, |c: Corner| c.y);
        lemma_one_more(bounds(points).low.z, bounds(rest).low.z, GREATEST, points, |c: Corner| c.z);
        lemma_one_more(bounds(points).high.x, bounds(rest).high.x, LEAST, points, |c: Corner| c.x);
        lemma_one_more(bounds(points).high.y, bounds(rest).high.y, LEAST, points, |c: Corner| c.y);
        lemma_one_more(bounds(points).high.z, bounds(rest).high.z, LEAST, points, |c: Corner| c.z);
    }
}

proof fn lemma_one_more(
    bits: u64,
    before: u64,
    start: u64,
    points: Seq<Corner>,
    f: spec_fn(Corner) -> u64,
)
    requires
        points.len() > 0,
        is_one_of(before, start, points.drop_last(), f),
        bits == before || bits == f(points.last()),
    ensures
        is_one_of(bits, start, points, f),
{
    if bits == before {
        if before != start {
            let i = choose|i: int|
                0 <= i < points.drop_last().len() && before == f(#[trigger] points.drop_last()[i]);
            assert(bits == f(points[i]));
        }
    } else {
        assert(bits == f(points[points.len() - 1]));
    }
}

/// Doubles are ordered by their sign and then by their size: bits without a sign rank by their
/// number, and with a sign the other way round, with both zeros alike.
pub proof fn doubles_rank_by_sign_and_size(size: u64)
    requires
        size < 0x8000_0000_0000_0000,
    ensures
        rank(size) == size,
        rank((size + 0x8000_0000_0000_0000) as u64) == -size,
{
}

/// What is no number is told by its size alone: it is greater than that of an infinity.
pub proof fn what_is_no_number_is_told_by_size(size: u64)
    requires
        size < 0x8000_0000_0000_0000,
    ensures
        is_nan(size) <==> size > 0x7ff0_0000_0000_0000,
        is_nan((size + 0x8000_0000_0000_0000) as u64) <==> size > 0x7ff0_0000_0000_0000,
{
    let signed = (size + 0x8000_0000_0000_0000) as u64;
    assert(signed % 0x8000_0000_0000_0000 == size);
}

/// A point whose coordinates are no numbers changes no bounds, and neither does one that lies
/// within them.
pub proof fn points_within_change_nothing(points: Seq<Corner>, p: Corner)
    requires
        within(bounds(points).low.x, p.x, bounds(points).high.x),
        within(bounds(points).low.y, p.y, bounds(points).high.y),
        within(bounds(points).low.z, p.z, bounds(points).high.z),
    ensures
        bounds(points.push(p)) == bounds(points),
{
    assert(points.push(p).drop_last() =~= points);
}

/// Bounds start out as the greatest and the least double, the wrong way round, so that every
/// point moves them.
pub proof fn bounds_start_the_wrong_way_round()
    ensures
        ({
            let b = bounds(Seq::empty());
            &&& b.low.x == 0x7fef_ffff_ffff_ffff
            &&& b.low.y == 0x7fef_ffff_ffff_ffff
            &&& b.low.z == 0x7fef_ffff_ffff_ffff
            &&& b.high.x == 0xffef_ffff_ffff_ffff
            &&& b.high.y == 0xffef_ffff_ffff_ffff
            &&& b.high.z == 0xffef_ffff_ffff_ffff
        }),
{
}

/// A point beyond a bound, in any one of the three directions, moves that bound to itself.
pub proof fn points_beyond_move_bounds(points: Seq<Corner>, p: Corner)
    ensures
        ({
            let b = bounds(points);
            let c = bounds(points.push(p));
            &&& !is_nan(p.x) && rank(p.x) < rank(b.low.x) ==> c.low.x == p.x
            &&& !is_nan(p.y) && rank(p.y) < rank(b.low.y) ==> c.low.y == p.y
            &&& !is_nan(p.z) && rank(p.z) < rank(b.low.z) ==> c.low.z == p.z
            &&& !is_nan(p.x) && rank(p.x) > rank(b.high.x) ==> c.high.x == p.x
            &&& !is_nan(p.y) && rank(p.y) > rank(b.high.y) ==> c.high.y == p.y
            &&& !is_nan(p.z) && rank(p.z) > rank(b.high.z) ==> c.high.z == p.z
        }),
{
    assert(points.push(p).drop_last() =~= points);
}

} // verus!
