//! Framing of binary STL data.
//!
//! An 80-byte header, a little-endian `u32` triangle count, then 50 bytes
//! per triangle: a normal (12 bytes, ignored), three vertices of three
//! little-endian `f32` coordinates, and a 2-byte attribute (ignored).
//! Coordinates are handed out as their raw `f32` bit patterns.
//!
//! Also decides which facets each cutting plane meets.
use vstd::prelude::*;

verus! {

/// The little-endian `u32` in the four bytes of `b` from `at`.
pub open spec fn le_u32_at(b: Seq<u8>, at: int) -> int {
    b[at] + 256 * b[at + 1] + 65536 * b[at + 2] + 16777216 * b[at + 3]
}

/// Byte offset of coordinate `j` (0 to 8) of triangle `t`.
pub open spec fn coordinate_offset(t: int, j: int) -> int {
    84 + 50 * t + 12 + 4 * j
}

/// The triangle count written in the data (which must hold 84 bytes).
pub open spec fn declared_count(b: Seq<u8>) -> int {
    le_u32_at(b, 80)
}

/// The data holds the header, the count and every triangle it announces.
pub open spec fn complete_data(b: Seq<u8>) -> bool {
    b.len() >= 84 && b.len() >= 84 + 50 * declared_count(b)
}

/// The `f32` bit pattern `bits` is a NaN: exponent all ones, mantissa not zero.
pub open spec fn is_nan_bits(bits: int) -> bool {
    (bits / 8388608) % 256 == 255 && bits % 8388608 != 0
}

/// Some coordinate of the announced triangles is a NaN.
pub open spec fn has_nan(b: Seq<u8>) -> bool {
    exists|t: int, j: int|
        0 <= t < declared_count(b) && 0 <= j < 9 && #[trigger] is_nan_bits(le_u32_at(b, coordinate_offset(t, j)))
}

/// Why STL data was refused.
#[derive(Clone, Copy, Debug, PartialEq, Eq, Structural)]
pub enum StlError {
    /// The data ends before the header, the count or an announced triangle.
    Truncated,
    /// A coordinate is not a number.
    NotANumber,
}

/// Relies on byteorder's `LittleEndian::read_u32`: the `u32` whose bytes,
/// least significant first, are the four bytes of `bytes` from `at`.
#[verifier::external_body]
fn read_u32_le(bytes: &Vec<u8>, at: usize) -> (r: u32)
    requires
        at + 4 <= bytes@.len(),
    ensures
        r as int == le_u32_at(bytes@, at as int),
{
    <byteorder::LittleEndian as byteorder::ByteOrder>::read_u32(&bytes[at..at + 4])
}

/// Tells whether the `f32` bit pattern `bits` is a NaN.
pub fn is_nan(bits: u32) -> (r: bool)
    ensures
        r == is_nan_bits(bits as int),
{
    (bits / 8388608) % 256 == 255 && bits % 8388608 != 0
}

/// The nine coordinates of triangle `t`, as `f32` bit patterns.
fn triangle_at(bytes: &Vec<u8>, t: usize) -> (r: [u32; 9])
    requires
        84 + 50 * t + 50 <= bytes@.len(),
    ensures
        forall|j: int| 0 <= j < 9 ==> r@[j] as int == le_u32_at(bytes@, coordinate_offset(t as int, j)),
{
    let n = bytes.len();
    assert(84 + 50 * t + 50 <= n);
    let base = 84 + 50 * t + 12;
    let r = [
        read_u32_le(bytes, base),
        read_u32_le(bytes, base + 4),
        read_u32_le(bytes, base + 8),
        read_u32_le(bytes, base + 12),
        read_u32_le(bytes, base + 16),
        read_u32_le(bytes, base + 20),
        read_u32_le(bytes, base + 24),
        read_u32_le(bytes, base + 28),
        read_u32_le(bytes, base + 32),
    ];
    assert forall|j: int| 0 <= j < 9 implies r@[j] as int == le_u32_at(bytes@, coordinate_offset(t as int, j)) by {
        assert(coordinate_offset(t as int, j) == base + 4 * j);
    }
    r
}

/// Reads the triangles of binary STL data: for each, its three vertices'
/// coordinates (x, y, z of each in turn) as `f32` bit patterns.
pub fn parse_triangles(bytes: &Vec<u8>) -> (r: Result<Vec<[u32; 9]>, StlError>)
    ensures
        !complete_data(bytes@) <==> r == Err::<Vec<[u32; 9]>, StlError>(StlError::Truncated),
        complete_data(bytes@) && has_nan(bytes@) <==> r == Err::<Vec<[u32; 9]>, StlError>(StlError::NotANumber),
        r matches Ok(v) ==> v@.len() == declared_count(bytes@) && forall|t: int, j: int|
            0 <= t < v@.len() && 0 <= j < 9 ==> #[trigger] v@[t]@[j] as int == le_u32_at(bytes@, coordinate_offset(t, j)),
{
    if bytes.len() < 84 {
        return Err(StlError::Truncated);
    }
    let count = read_u32_le(bytes, 80);
    if (bytes.len() as u64) < 84 + 50 * (count as u64) {
        return Err(StlError::Truncated);
    }
    let mut triangles: Vec<[u32; 9]> = Vec::new();
    let mut t: usize = 0;
    while t < count as usize
        invariant
            complete_data(bytes@),
            count as int == declared_count(bytes@),
            t <= count,
            triangles@.len() == t,
            forall|t2: int, j: int|
                0 <= t2 < t && 0 <= j < 9 ==> #[trigger] triangles@[t2]@[j] as int == le_u32_at(bytes@, coordinate_offset(t2, j)),
            forall|t2: int, j: int|
                0 <= t2 < t && 0 <= j < 9 ==> !#[trigger] is_nan_bits(le_u32_at(bytes@, coordinate_offset(t2, j))),
        decreases count - t,
    {
        assert(84 + 50 * t + 50 <= bytes@.len()) by (nonlinear_arith)
            requires t < count, bytes@.len() >= 84 + 50 * (count as int);
        let tri = triangle_at(bytes, t);
        let mut j: usize = 0;
        while j < 9
            invariant
                0 <= j <= 9,
                complete_data(bytes@),
                count as int == declared_count(bytes@),
                t < count,
                forall|k: int| 0 <= k < 9 ==> tri@[k] as int == le_u32_at(bytes@, coordinate_offset(t as int, k)),
                forall|k: int| 0 <= k < j ==> !is_nan_bits(tri@[k] as int),
            decreases 9 - j,
        {
            if is_nan(tri[j]) {
                assert(is_nan_bits(le_u32_at(bytes@, coordinate_offset(t as int, j as int))));
                assert(has_nan(bytes@));
                return Err(StlError::NotANumber);
            }
            j = j + 1;
        }
        let ghost old_triangles = triangles@;
        triangles.push(tri);
        assert forall|t2: int, k: int| 0 <= t2 < t + 1 && 0 <= k < 9 implies #[trigger] triangles@[t2]@[k] as int
            == le_u32_at(bytes@, coordinate_offset(t2, k)) by {
            if t2 < t {
                assert(triangles@[t2] == old_triangles[t2]);
            }
        }
        assert forall|t2: int, k: int| 0 <= t2 < t + 1 && 0 <= k < 9 implies !#[trigger] is_nan_bits(le_u32_at(bytes@, coordinate_offset(t2, k))) by {
            if t2 == t {
                assert(tri@[k] as int == le_u32_at(bytes@, coordinate_offset(t as int, k)));
            }
        }
        t = t + 1;
    }
    Ok(triangles)
}

/// Facet `f`, spanning heights `limits[f]`, is cut by the plane at `h`: at
/// equal heights a facet's end comes before a cut and its start before it
/// too, so the facet starts at or below `h` and ends above it.
pub open spec fn alive_at(limits: (i64, i64), h: i64) -> bool {
    limits.0 <= h < limits.1
}

/// For each height, the facets (by increasing index) that the plane at
/// that height cuts.
pub fn facets_at_heights(limits: &Vec<(i64, i64)>, heights: &Vec<i64>) -> (r: Vec<Vec<usize>>)
    ensures
        r@.len() == heights@.len(),
        forall|i: int, f: usize| 0 <= i < r@.len() ==> (#[trigger] r@[i]@.contains(f) <==> (f < limits@.len()
            && alive_at(limits@[f as int], heights@[i]))),
        forall|i: int, a: int, b: int| 0 <= i < r@.len() && 0 <= a < b < r@[i]@.len() ==> #[trigger] r@[i]@[a] < #[trigger] r@[i]@[b],
{
    let mut r: Vec<Vec<usize>> = Vec::new();
    let mut i: usize = 0;
    while i < heights.len()
        invariant
            i <= heights@.len(),
            r@.len() == i,
            forall|i2: int, f: usize| 0 <= i2 < i ==> (#[trigger] r@[i2]@.contains(f) <==> (f < limits@.len()
                && alive_at(limits@[f as int], heights@[i2]))),
            forall|i2: int, a: int, b: int| 0 <= i2 < i && 0 <= a < b < r@[i2]@.len() ==> #[trigger] r@[i2]@[a] < #[trigger] r@[i2]@[b],
        decreases heights@.len() - i,
    {
        let h = heights[i];
        let mut alive: Vec<usize> = Vec::new();
        let mut f: usize = 0;
        while f < limits.len()
            invariant
                f <= limits@.len(),
                h == heights@[i as int],
                forall|g: usize| #[trigger] alive@.contains(g) <==> (g < f && alive_at(limits@[g as int], h)),
                forall|a: int, b: int| 0 <= a < b < alive@.len() ==> #[trigger] alive@[a] < #[trigger] alive@[b],
                forall|a: int| 0 <= a < alive@.len() ==> #[trigger] alive@[a] < f,
            decreases limits@.len() - f,
        {
            let (zmin, zmax) = limits[f];
            let ghost before = alive@;
            if zmin <= h && h < zmax {
                alive.push(f);
                assert(alive@[before.len() as int] == f);
            }
            assert forall|g: usize| #[trigger] alive@.contains(g) <==> (g < f + 1 && alive_at(limits@[g as int], h)) by {
                if alive@.contains(g) && g != f {
                    let a = choose|a: int| 0 <= a < alive@.len() && alive@[a] == g;
                    assert(before[a] == g);
                }
                if before.contains(g) {
                    let a = choose|a: int| 0 <= a < before.len() && before[a] == g;
                    assert(alive@[a] == g);
                }
            }
            f = f + 1;
        }
        let ghost old_r = r@;
        r.push(alive);
        assert forall|i2: int, g: usize| 0 <= i2 < i + 1 implies (#[trigger] r@[i2]@.contains(g) <==> (g < limits@.len()
            && alive_at(limits@[g as int], heights@[i2]))) by {
            if i2 < i {
                assert(r@[i2] == old_r[i2]);
            }
        }
        assert forall|i2: int, a: int, b: int| 0 <= i2 < i + 1 && 0 <= a < b < r@[i2]@.len() implies #[trigger] r@[i2]@[a] < #[trigger] r@[i2]@[b] by {
            if i2 < i {
                assert(r@[i2] == old_r[i2]);
            }
        }
        i = i + 1;
    }
    r
}

} // verus!
