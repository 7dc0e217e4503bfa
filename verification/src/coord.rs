use vstd::prelude::*;

verus! {

/// A position on the ground, in millimetres east and north of the map's
/// reference point.
#[derive(Clone, Copy, Debug, PartialEq, Eq, Structural)]
pub struct Coord {
    pub x: i64,
    pub y: i64,
}

/// The square of the distance between two positions.
pub open spec fn dist_sq(a: Coord, b: Coord) -> int {
    (a.x - b.x) * (a.x - b.x) + (a.y - b.y) * (a.y - b.y)
}

/// A line is closed when it is empty or ends where it starts.
pub open spec fn is_closed(line: Seq<Coord>) -> bool {
    line.len() == 0 || line[0] == line[line.len() - 1]
}

/// The line with its first position repeated at the end, unless it is closed
/// already.
pub open spec fn closed(line: Seq<Coord>) -> Seq<Coord> {
    if is_closed(line) {
        line
    } else {
        line.push(line[0])
    }
}

/// Twice the area that the first `k` edges of a line enclose, positive when
/// they run counter-clockwise: the sum of the cross products of consecutive
/// positions.
pub open spec fn cross_sum(line: Seq<Coord>, k: nat) -> int
    decreases k,
{
    if k == 0 || k >= line.len() {
        0
    } else {
        cross_sum(line, (k - 1) as nat) + line[k - 1].x * line[k as int].y - line[k - 1].y
            * line[k as int].x
    }
}

/// Twice the signed area of a ring. A line that is open or has fewer than
/// three positions encloses nothing.
pub open spec fn double_area(line: Seq<Coord>) -> int {
    if line.len() < 3 || !is_closed(line) {
        0
    } else {
        cross_sum(line, (line.len() - 1) as nat)
    }
}

/// The distance between two numbers.
pub fn gap(a: i64, b: i64) -> (d: u64)
    ensures
        d == if a >= b { a - b } else { b - a },
{
    if a >= b {
        (a as i128 - b as i128) as u64
    } else {
        (b as i128 - a as i128) as u64
    }
}

/// Whether two positions lie within `delta` of each other, the bound included.
pub fn within(a: Coord, b: Coord, delta: u64) -> (r: bool)
    ensures
        r == (dist_sq(a, b) <= delta * delta),
{
    let dx: u64 = gap(a.x, b.x);
    let dy: u64 = gap(a.y, b.y);
    assert(dx * dx == (a.x - b.x) * (a.x - b.x)) by (nonlinear_arith)
        requires
            dx == if a.x >= b.x { a.x - b.x } else { b.x - a.x },
    ;
    assert(dy * dy == (a.y - b.y) * (a.y - b.y)) by (nonlinear_arith)
        requires
            dy == if a.y >= b.y { a.y - b.y } else { b.y - a.y },
    ;
    if dx > delta || dy > delta {
        assert(dist_sq(a, b) > delta * delta) by (nonlinear_arith)
            requires
                dx > delta || dy > delta,
                dist_sq(a, b) == dx * dx + dy * dy,
        ;
        return false;
    }
    assert(dx * dx <= delta * delta && dy * dy <= delta * delta && delta * delta
        <= 0xffff_ffff_ffff_ffff * 0xffff_ffff_ffff_ffff) by (nonlinear_arith)
        requires
            dx <= delta,
            dy <= delta,
            delta <= 0xffff_ffff_ffff_ffff,
    ;
    let limit: u128 = (delta as u128) * (delta as u128);
    let sx: u128 = (dx as u128) * (dx as u128);
    let sy: u128 = (dy as u128) * (dy as u128);
    sx <= limit - sy
}

/// Whether a line is closed.
pub fn line_is_closed(line: &Vec<Coord>) -> (r: bool)
    ensures
        r == is_closed(line@),
{
    let n = line.len();
    if n == 0 {
        return true;
    }
    line[0].x == line[n - 1].x && line[0].y == line[n - 1].y
}

/// Closes a line: repeats its first position at the end unless the line is
/// closed already.
pub fn close_line(line: &mut Vec<Coord>)
    ensures
        final(line)@ == closed(old(line)@),
{
    if !line_is_closed(line) {
        let first = line[0];
        line.push(first);
    }
}

/// A copy of a line.
pub fn copy_line(line: &Vec<Coord>) -> (r: Vec<Coord>)
    ensures
        r@ == line@,
{
    let mut r: Vec<Coord> = Vec::new();
    let mut i: usize = 0;
    while i < line.len()
        invariant
            i <= line.len(),
            r@ == line@.take(i as int),
        decreases line.len() - i,
    {
        r.push(line[i]);
        i += 1;
    }
    r
}

/// A number cut down to what 128 bits hold.
pub open spec fn clamped(v: int) -> int {
    if v > i128::MAX {
        i128::MAX as int
    } else if v < i128::MIN {
        i128::MIN as int
    } else {
        v
    }
}

/// The cross product of two positions.
fn cross(a: Coord, b: Coord) -> (t: i128)
    ensures
        t == a.x * b.y - a.y * b.x,
        -0x7fff_ffff_ffff_ffff_8000_0000_0000_0000 <= t <= 0x7fff_ffff_ffff_ffff_8000_0000_0000_0000,
{
    let (ax, ay, bx, by) = (a.x as i128, a.y as i128, b.x as i128, b.y as i128);
    assert(-0x3fff_ffff_ffff_ffff_8000_0000_0000_0000 <= ax * by <= 0x4000_0000_0000_0000_0000_0000_0000_0000
        && -0x3fff_ffff_ffff_ffff_8000_0000_0000_0000 <= ay * bx
        <= 0x4000_0000_0000_0000_0000_0000_0000_0000) by (nonlinear_arith)
        requires
            -0x8000_0000_0000_0000 <= ax <= 0x7fff_ffff_ffff_ffff,
            -0x8000_0000_0000_0000 <= ay <= 0x7fff_ffff_ffff_ffff,
            -0x8000_0000_0000_0000 <= bx <= 0x7fff_ffff_ffff_ffff,
            -0x8000_0000_0000_0000 <= by <= 0x7fff_ffff_ffff_ffff,
    ;
    ax * by - ay * bx
}

/// Splits a number into a multiple of 2^64 and a rest below 2^64.
fn split(t: i128) -> (r: (i128, u128))
    requires
        -0x7fff_ffff_ffff_ffff_8000_0000_0000_0000 <= t <= 0x7fff_ffff_ffff_ffff_8000_0000_0000_0000,
    ensures
        t == r.0 * 0x1_0000_0000_0000_0000 + r.1,
        r.1 < 0x1_0000_0000_0000_0000,
        -0x8000_0000_0000_0000 <= r.0 < 0x8000_0000_0000_0000,
{
    if t >= 0 {
        (t / 0x1_0000_0000_0000_0000, (t % 0x1_0000_0000_0000_0000) as u128)
    } else {
        let m: i128 = -(t + 1);
        let mh: i128 = m / 0x1_0000_0000_0000_0000;
        let ml: i128 = m % 0x1_0000_0000_0000_0000;
        (-mh - 1, (0xffff_ffff_ffff_ffff - ml) as u128)
    }
}

/// Twice the signed area of a ring, in square millimetres: positive where
/// the ring runs counter-clockwise, negative where it runs clockwise, and
/// zero for a line that is open or has fewer than three positions. A value
/// that 128 bits cannot hold is cut down to the nearest that they can, so the
/// sign is always right.
pub fn line_string_signed_area(line: &Vec<Coord>) -> (a: i128)
    ensures
        a == clamped(double_area(line@)),
        a < 0 <==> double_area(line@) < 0,
        a > 0 <==> double_area(line@) > 0,
{
    let n = line.len();
    if n < 3 || !line_is_closed(line) {
        return 0;
    }
    let mut hi: i128 = 0;
    let mut lo: u128 = 0;
    let mut k: usize = 1;
    while k < n
        invariant
            1 <= k <= n,
            n == line.len(),
            lo < 0x1_0000_0000_0000_0000,
            -(k - 1) * 0x8000_0000_0000_0000 <= hi <= (k - 1) * 0x8000_0000_0000_0000,
            hi * 0x1_0000_0000_0000_0000 + lo == cross_sum(line@, (k - 1) as nat),
        decreases n - k,
    {
        let t = cross(line[k - 1], line[k]);
        let (th, tl) = split(t);
        let sum: u128 = lo + tl;
        assert(cross_sum(line@, k as nat) == cross_sum(line@, (k - 1) as nat) + t);
        if sum >= 0x1_0000_0000_0000_0000 {
            lo = sum - 0x1_0000_0000_0000_0000;
            hi = hi + th + 1;
        } else {
            lo = sum;
            hi = hi + th;
        }
        k += 1;
    }
    if hi >= 0x8000_0000_0000_0000 {
        i128::MAX
    } else if hi < -0x8000_0000_0000_0000 {
        i128::MIN
    } else {
        hi * 0x1_0000_0000_0000_0000 + lo as i128
    }
}

} // verus!
