//! Triangles of an indexed mesh, read from its index buffer.
use vstd::prelude::*;

verus! {

/// Every corner named by the whole triangles of `indices` (a trailing one or
/// two indices are ignored) has its three coordinates inside a flat position
/// buffer of length `position_len`.
pub open spec fn corners_in_range(indices: Seq<u32>, position_len: nat) -> bool {
    forall|m: int| 0 <= m < 3 * (indices.len() / 3) ==> 3 * #[trigger] indices[m] + 2 < position_len
}

/// For each whole triangle of the index buffer, the offsets in the flat
/// `x, y, z` position buffer of its three corners; `None` when a corner lies
/// outside a buffer of length `position_len`.
pub fn triangle_corners(indices: &Vec<u32>, position_len: usize) -> (r: Option<Vec<[usize; 3]>>)
    ensures
        r is Some <==> corners_in_range(indices@, position_len as nat),
        r matches Some(v) ==> {
            &&& v@.len() == indices@.len() / 3
            &&& forall|t: int, c: int|
                0 <= t < v@.len() && 0 <= c < 3 ==> #[trigger] v@[t][c] == 3 * indices@[3 * t + c]
        },
{
    let triangles = indices.len() / 3;
    let limit = position_len / 3;
    let mut out: Vec<[usize; 3]> = Vec::new();
    let mut t: usize = 0;
    while t < triangles
        invariant
            triangles == indices@.len() / 3,
            indices@.len() <= usize::MAX,
            limit == position_len / 3,
            t <= triangles,
            out@.len() == t,
            forall|m: int| 0 <= m < 3 * t ==> 3 * #[trigger] indices@[m] + 2 < position_len,
            forall|s: int, c: int|
                0 <= s < t && 0 <= c < 3 ==> #[trigger] out@[s][c] == 3 * indices@[3 * s + c],
        decreases triangles - t,
    {
        let mut corners = [0usize; 3];
        let mut c: usize = 0;
        while c < 3
            invariant
                triangles == indices@.len() / 3,
                indices@.len() <= usize::MAX,
                limit == position_len / 3,
                t < triangles,
                c <= 3,
                forall|m: int| 0 <= m < 3 * t + c ==> 3 * #[trigger] indices@[m] + 2 < position_len,
                forall|d: int| 0 <= d < c ==> #[trigger] corners[d] == 3 * indices@[3 * t + d],
            decreases 3 - c,
        {
            assert(3 * t + c < indices@.len()) by (nonlinear_arith)
                requires
                    t < triangles,
                    triangles == indices@.len() / 3,
                    c < 3,
            ;
            let idx = indices[3 * t + c] as usize;
            if idx >= limit {
                assert(3 * idx + 2 >= position_len) by (nonlinear_arith)
                    requires
                        idx >= limit,
                        limit == position_len / 3,
                ;
                assert(3 * t + c < 3 * (indices@.len() / 3));
                return None;
            }
            assert(3 * idx + 2 < position_len) by (nonlinear_arith)
                requires
                    idx < limit,
                    limit == position_len / 3,
            ;
            corners[c] = 3 * idx;
            c += 1;
        }
        out.push(corners);
        t += 1;
    }
    Some(out)
}

} // verus!
