use vstd::prelude::*;

verus! {

/// A window pixel from its red, green and blue bytes: `0x00RRGGBB`.
pub fn pack_rgb(r: u8, g: u8, b: u8) -> (res: u32)
    ensures
        res == r * 65536 + g * 256 + b,
{
    let r32 = r as u32;
    let g32 = g as u32;
    let b32 = b as u32;
    assert((r32 << 16u32) | (g32 << 8u32) | b32 == r32 * 65536 + g32 * 256 + b32) by (bit_vector)
        requires
            r32 < 256,
            g32 < 256,
            b32 < 256,
    ;
    (r32 << 16) | (g32 << 8) | b32
}

/// Closes a ring of points by repeating its first point at the end; an empty
/// ring stays empty.
pub fn close_ring<T: Copy>(points: &mut Vec<T>)
    ensures
        final(points)@ == if old(points)@.len() > 0 {
            old(points)@.push(old(points)@[0])
        } else {
            old(points)@
        },
{
    if points.len() > 0 {
        let first = points[0];
        points.push(first);
    }
}

/// The consecutive point pairs of a polyline, one per line segment (none for
/// fewer than two points).
pub fn segment_pairs<T: Copy>(points: &Vec<T>) -> (res: Vec<(T, T)>)
    ensures
        res@.len() == if points@.len() > 0 { points@.len() - 1 } else { 0 },
        forall|i: int| 0 <= i < res@.len() ==> #[trigger] res@[i] == (points@[i], points@[i + 1]),
{
    let mut res: Vec<(T, T)> = Vec::new();
    if points.len() < 2 {
        return res;
    }
    let mut i: usize = 0;
    while i < points.len() - 1
        invariant
            points@.len() >= 2,
            i + 1 <= points@.len(),
            res@.len() == i,
            forall|j: int| 0 <= j < i ==> #[trigger] res@[j] == (points@[j], points@[j + 1]),
        decreases points@.len() - i,
    {
        res.push((points[i], points[i + 1]));
        i += 1;
    }
    res
}

} // verus!
