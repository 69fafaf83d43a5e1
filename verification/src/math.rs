//! Matrix primitives for the transform buffers.
//!
//! Transform entries are 32-bit two's-complement scalars, stored
//! column-major, 16 per node. Composition is the 4x4 matrix product with
//! wrapping arithmetic, so a pass never panics whatever the host wrote
//! into the buffers; any fixed-point interpretation of the scalars is the
//! host's choice.

use vstd::prelude::*;
use crate::hierarchy::parent_of;

verus! {

/// The 4x4 identity matrix, column-major.
pub open spec fn identity_mat() -> Seq<i32> {
    seq![
        1i32, 0i32, 0i32, 0i32,
        0i32, 1i32, 0i32, 0i32,
        0i32, 0i32, 1i32, 0i32,
        0i32, 0i32, 0i32, 1i32,
    ]
}

/// Flat entry `i` of the column-major product `a * b`: the dot product of
/// row `i % 4` of `a` with column `i / 4` of `b`, with wrapping arithmetic.
pub open spec fn mul_entry(a: Seq<i32>, b: Seq<i32>, i: int) -> i32 {
    let row = i % 4;
    let base = i - row;
    let t0 = a[row].wrapping_mul(b[base]);
    let t1 = a[4 + row].wrapping_mul(b[base + 1]);
    let t2 = a[8 + row].wrapping_mul(b[base + 2]);
    let t3 = a[12 + row].wrapping_mul(b[base + 3]);
    t0.wrapping_add(t1).wrapping_add(t2).wrapping_add(t3)
}

/// The column-major 4x4 matrix product `a * b`.
pub open spec fn mat4_mul(a: Seq<i32>, b: Seq<i32>) -> Seq<i32> {
    Seq::new(16, |i: int| mul_entry(a, b, i))
}

/// Compute the 4x4 matrix product `a * b`.
pub fn mul_mat4(a: &Vec<i32>, b: &Vec<i32>) -> (r: Vec<i32>)
    requires
        a@.len() == 16,
        b@.len() == 16,
    ensures
        r@ == mat4_mul(a@, b@),
{
    let mut r: Vec<i32> = Vec::new();
    let mut i: usize = 0;
    while i < 16
        invariant
            a@.len() == 16,
            b@.len() == 16,
            i <= 16,
            r@.len() == i,
            forall|j: int| 0 <= j < i ==> r@[j] == mul_entry(a@, b@, j),
        decreases 16 - i,
    {
        let row: usize = i % 4;
        let base: usize = i - row;
        let t0 = a[row].wrapping_mul(b[base]);
        let t1 = a[4 + row].wrapping_mul(b[base + 1]);
        let t2 = a[8 + row].wrapping_mul(b[base + 2]);
        let t3 = a[12 + row].wrapping_mul(b[base + 3]);
        r.push(t0.wrapping_add(t1).wrapping_add(t2).wrapping_add(t3));
        i = i + 1;
    }
    proof {
        assert(r@ =~= mat4_mul(a@, b@));
    }
    r
}

/// Copy the 16 words starting at `start` out of a buffer.
pub(crate) fn read_slice16(src: &Vec<i32>, start: usize) -> (r: Vec<i32>)
    requires
        start + 16 <= src@.len(),
    ensures
        r@ == src@.subrange(start as int, start as int + 16),
{
    let src_len: usize = src.len();
    let mut r: Vec<i32> = Vec::new();
    let mut j: usize = 0;
    while j < 16
        invariant
            start + 16 <= src_len == src@.len(),
            j <= 16,
            r@.len() == j,
            forall|k: int| 0 <= k < j ==> r@[k] == src@[start + k],
        decreases 16 - j,
    {
        r.push(src[start + j]);
        j = j + 1;
    }
    proof {
        assert(r@ =~= src@.subrange(start as int, start as int + 16));
    }
    r
}

/// Overwrite the 16 words starting at `start` of a buffer.
pub(crate) fn write_slice16(dst: &mut Vec<i32>, start: usize, src: &Vec<i32>)
    requires
        src@.len() == 16,
        start + 16 <= old(dst)@.len(),
    ensures
        final(dst)@.len() == old(dst)@.len(),
        final(dst)@.subrange(start as int, start as int + 16) == src@,
        forall|i: int|
            0 <= i < old(dst)@.len() && !(start <= i < start + 16) ==> final(dst)@[i] == old(
                dst,
            )@[i],
{
    let dst_len: usize = dst.len();
    let mut j: usize = 0;
    while j < 16
        invariant
            src@.len() == 16,
            start + 16 <= dst_len == dst@.len(),
            dst@.len() == old(dst)@.len(),
            j <= 16,
            forall|k: int| 0 <= k < j ==> dst@[start + k] == src@[k],
            forall|i: int|
                0 <= i < old(dst)@.len() && !(start <= i < start + j) ==> dst@[i] == old(dst)@[i],
        decreases 16 - j,
    {
        dst.set(start + j, src[j]);
        j = j + 1;
    }
    proof {
        assert(dst@.subrange(start as int, start as int + 16) =~= src@);
    }
}

/// The world-transform visitor kernel: recompute node `index`'s world
/// transform as its parent's world transform (the buffer's current value)
/// composed with the node's local transform; the root, having no parent,
/// takes its local transform unchanged. Only the node's own 16 world
/// words are written.
pub fn update_worldmatrix_by_parent(
    index: i16,
    nodes_indexs: &Vec<i16>,
    local_transform_array: &Vec<i32>,
    world_transform_array: &mut Vec<i32>,
)
    requires
        0 <= index,
        4 * index + 4 <= nodes_indexs@.len(),
        16 * index + 16 <= local_transform_array@.len(),
        old(world_transform_array)@.len() == local_transform_array@.len(),
        parent_of(nodes_indexs@, index as int) == -1 || (0 <= parent_of(
            nodes_indexs@,
            index as int,
        ) && 16 * parent_of(nodes_indexs@, index as int) + 16
            <= local_transform_array@.len()),
    ensures
        final(world_transform_array)@.len() == old(world_transform_array)@.len(),
        forall|i: int|
            0 <= i < old(world_transform_array)@.len() && !(16 * index <= i < 16 * index + 16)
                ==> final(world_transform_array)@[i] == old(world_transform_array)@[i],
        ({
            let n = index as int;
            let p = parent_of(nodes_indexs@, n);
            final(world_transform_array)@.subrange(16 * n, 16 * n + 16) == if p == -1 {
                local_transform_array@.subrange(16 * n, 16 * n + 16)
            } else {
                mat4_mul(
                    old(world_transform_array)@.subrange(16 * p, 16 * p + 16),
                    local_transform_array@.subrange(16 * n, 16 * n + 16),
                )
            }
        }),
{
    let ni: usize = index as usize;
    let parent: i16 = nodes_indexs[4 * ni];
    let local = read_slice16(local_transform_array, 16 * ni);
    if parent == -1 {
        write_slice16(world_transform_array, 16 * ni, &local);
    } else {
        let pw = read_slice16(world_transform_array, 16 * (parent as usize));
        let composed = mul_mat4(&pw, &local);
        write_slice16(world_transform_array, 16 * ni, &composed);
    }
}

} // verus!
