//! Greedy meshing: faces merged slice by slice into maximal rectangles.

use vstd::prelude::*;
use crate::grid::Chunk;
use crate::mesher::{dir_offset, extents_ok, flat_faces, interior, shows_face, volume, MeshData, Quad, QuadGroups};
use crate::voxel::{emits_face, VoxelType};

verus! {

/// One cell of a slice mask: the voxel whose face lies there and the sign
/// of the direction it faces; a `normal` of 0 marks a cell with no face.
#[derive(Debug, Clone, Copy, PartialEq, Eq, Structural)]
pub struct FMask {
    pub voxel: VoxelType,
    pub normal: i8,
}

impl FMask {
    pub fn new(voxel: VoxelType, normal: i8) -> (r: FMask)
        ensures
            r.voxel == voxel,
            r.normal == normal,
    {
        FMask { voxel, normal }
    }
}

/// Whether two mask cells can be merged into one quad: the same voxel
/// facing the same way.
pub fn compare_mask(mask: FMask, compare: FMask) -> (r: bool)
    ensures
        r == (mask.normal == compare.normal && mask.voxel == compare.voxel),
{
    mask.normal == compare.normal && mask.voxel == compare.voxel
}

/// A rectangle of mask cells: columns `u..u + width`, rows `v..v + height`.
#[derive(Debug, Clone, Copy, PartialEq, Eq, Structural)]
pub struct Rect {
    pub u: usize,
    pub v: usize,
    pub width: usize,
    pub height: usize,
}

/// Index of cell `(a, b)` in a row-major mask `w` cells wide.
pub open spec fn cell(w: int, a: int, b: int) -> int {
    a + b * w
}

pub open spec fn in_rect(r: Rect, a: int, b: int) -> bool {
    r.u <= a < r.u + r.width && r.v <= b < r.v + r.height
}

/// Whether `r` lies in a `w`×`h` mask `m` and all its cells hold the same
/// face as its first cell.
pub open spec fn uniform_rect(m: Seq<FMask>, w: int, h: int, r: Rect) -> bool {
    &&& 1 <= r.width && 1 <= r.height
    &&& r.u + r.width <= w && r.v + r.height <= h
    &&& m[cell(w, r.u as int, r.v as int)].normal != 0
    &&& forall|a: int, b: int|
        in_rect(r, a, b) ==> #[trigger] m[cell(w, a, b)] == m[cell(w, r.u as int, r.v as int)]
}

/// Whether `rects` cover the faces of the `w`×`h` mask `m` exactly: each is
/// uniform, no two overlap, and every cell with a face lies in one.
pub open spec fn rects_partition(m: Seq<FMask>, w: int, h: int, rects: Seq<Rect>) -> bool {
    &&& forall|k: int| 0 <= k < rects.len() ==> uniform_rect(m, w, h, #[trigger] rects[k])
    &&& forall|k1: int, k2: int, a: int, b: int|
        0 <= k1 < rects.len() && 0 <= k2 < rects.len() && k1 != k2 && #[trigger] in_rect(
            rects[k1],
            a,
            b,
        ) ==> !#[trigger] in_rect(rects[k2], a, b)
    &&& forall|a: int, b: int|
        0 <= a < w && 0 <= b < h && (#[trigger] m[cell(w, a, b)]).normal != 0 ==> exists|k: int|
            0 <= k < rects.len() && #[trigger] in_rect(rects[k], a, b)
}

proof fn lemma_cell_bounds(w: int, h: int, a: int, b: int)
    requires
        0 <= a < w,
        0 <= b < h,
    ensures
        0 <= cell(w, a, b) < w * h,
{
    assert(0 <= a + b * w < w * h) by (nonlinear_arith)
        requires
            0 <= a < w,
            0 <= b < h,
    ;
}

proof fn lemma_cell_unique(w: int, a1: int, b1: int, a2: int, b2: int)
    requires
        0 <= a1 < w,
        0 <= a2 < w,
        0 <= b1,
        0 <= b2,
        cell(w, a1, b1) == cell(w, a2, b2),
    ensures
        a1 == a2 && b1 == b2,
{
    vstd::arithmetic::div_mod::lemma_fundamental_div_mod_converse(cell(w, a1, b1), w, b1, a1);
    vstd::arithmetic::div_mod::lemma_fundamental_div_mod_converse(cell(w, a2, b2), w, b2, a2);
}


pub open spec fn no_face() -> FMask {
    FMask { voxel: VoxelType::Empty, normal: 0 }
}

/// Sets every cell of `r` to "no face" and leaves the others alone.
fn clear_rect(mask: &mut Vec<FMask>, w: usize, h: usize, r: Rect)
    requires
        old(mask)@.len() == w * h,
        w * h <= usize::MAX,
        r.u + r.width <= w,
        r.v + r.height <= h,
    ensures
        final(mask)@.len() == w * h,
        forall|a: int, b: int|
            0 <= a < w && 0 <= b < h ==> #[trigger] final(mask)@[cell(w as int, a, b)] == if in_rect(
                r,
                a,
                b,
            ) {
                no_face()
            } else {
                old(mask)@[cell(w as int, a, b)]
            },
{
    let ghost m = mask@;
    let mut l: usize = 0;
    while l < r.height
        invariant
            mask@.len() == w * h,
            w * h <= usize::MAX,
            m.len() == w * h,
            r.u + r.width <= w,
            r.v + r.height <= h,
            l <= r.height,
            forall|a: int, b: int|
                0 <= a < w && 0 <= b < h ==> #[trigger] mask@[cell(w as int, a, b)] == if in_rect(r, a, b)
                    && b < r.v + l {
                    no_face()
                } else {
                    m[cell(w as int, a, b)]
                },
        decreases r.height - l,
    {
        let mut k: usize = 0;
        while k < r.width
            invariant
                mask@.len() == w * h,
                w * h <= usize::MAX,
                m.len() == w * h,
                r.u + r.width <= w,
                r.v + r.height <= h,
                l < r.height,
                k <= r.width,
                forall|a: int, b: int|
                    0 <= a < w && 0 <= b < h ==> #[trigger] mask@[cell(w as int, a, b)] == if in_rect(
                        r,
                        a,
                        b,
                    ) && (b < r.v + l || (b == r.v + l && a < r.u + k)) {
                        no_face()
                    } else {
                        m[cell(w as int, a, b)]
                    },
            decreases r.width - k,
        {
            let x = r.u + k;
            let y = r.v + l;
            proof {
                lemma_cell_bounds(w as int, h as int, x as int, y as int);
            }
            let ghost before = mask@;
            mask.set(x + y * w, FMask { voxel: VoxelType::Empty, normal: 0 });
            proof {
                assert forall|a: int, b: int| 0 <= a < w && 0 <= b < h implies #[trigger] mask@[cell(
                    w as int,
                    a,
                    b,
                )] == if in_rect(r, a, b) && (b < r.v + l || (b == r.v + l && a < r.u + k + 1)) {
                    no_face()
                } else {
                    m[cell(w as int, a, b)]
                } by {
                    lemma_cell_bounds(w as int, h as int, a, b);
                    if cell(w as int, a, b) == cell(w as int, x as int, y as int) {
                        lemma_cell_unique(w as int, a, b, x as int, y as int);
                    } else {
                        assert(mask@[cell(w as int, a, b)] == before[cell(w as int, a, b)]);
                    }
                }
            }
            k = k + 1;
        }
        l = l + 1;
    }
}

/// The scan state of `greedy_rects` between two cells: `m0` is the mask as
/// given, `m` the mask now, `rects` what was emitted, `(i, j)` the next cell.
pub open spec fn scan_inv(
    m0: Seq<FMask>,
    m: Seq<FMask>,
    rects: Seq<Rect>,
    w: int,
    h: int,
    i: int,
    j: int,
) -> bool {
    &&& m0.len() == w * h
    &&& m.len() == w * h
    &&& forall|a: int, b: int|
        0 <= a < w && 0 <= b < h && (#[trigger] m[cell(w, a, b)]).normal != 0 ==> m[cell(w, a, b)]
            == m0[cell(w, a, b)]
    &&& forall|a: int, b: int|
        0 <= a < w && 0 <= b < h && (#[trigger] m0[cell(w, a, b)]).normal != 0 && m[cell(
            w,
            a,
            b,
        )].normal == 0 ==> exists|k: int| 0 <= k < rects.len() && #[trigger] in_rect(rects[k], a, b)
    &&& forall|k: int| 0 <= k < rects.len() ==> uniform_rect(m0, w, h, #[trigger] rects[k])
    &&& forall|k: int, a: int, b: int|
        0 <= k < rects.len() && #[trigger] in_rect(rects[k], a, b) ==> m[cell(w, a, b)].normal == 0
    &&& forall|k1: int, k2: int, a: int, b: int|
        0 <= k1 < rects.len() && 0 <= k2 < rects.len() && k1 != k2 && #[trigger] in_rect(
            rects[k1],
            a,
            b,
        ) ==> !#[trigger] in_rect(rects[k2], a, b)
    &&& forall|a: int, b: int|
        0 <= a < w && 0 <= b < h && (b < j || (b == j && a < i)) ==> (#[trigger] m[cell(
            w,
            a,
            b,
        )]).normal == 0
}

proof fn lemma_emit_rect(
    m0: Seq<FMask>,
    mb: Seq<FMask>,
    m: Seq<FMask>,
    rects: Seq<Rect>,
    w: int,
    h: int,
    r: Rect,
    cur: FMask,
)
    requires
        scan_inv(m0, mb, rects, w, h, r.u as int, r.v as int),
        1 <= r.width,
        1 <= r.height,
        r.u + r.width <= w,
        r.v + r.height <= h,
        cur.normal != 0,
        forall|a: int, b: int| in_rect(r, a, b) ==> #[trigger] mb[cell(w, a, b)] == cur,
        m.len() == w * h,
        forall|a: int, b: int|
            0 <= a < w && 0 <= b < h ==> #[trigger] m[cell(w, a, b)] == if in_rect(r, a, b) {
                no_face()
            } else {
                mb[cell(w, a, b)]
            },
    ensures
        scan_inv(m0, m, rects.push(r), w, h, r.u + r.width, r.v as int),
{
    let nr = rects.push(r);
    assert(in_rect(r, r.u as int, r.v as int));
    assert(mb[cell(w, r.u as int, r.v as int)] == m0[cell(w, r.u as int, r.v as int)]);
    assert forall|a: int, b: int| in_rect(r, a, b) implies #[trigger] m0[cell(w, a, b)] == m0[cell(
        w,
        r.u as int,
        r.v as int,
    )] by {
        assert(mb[cell(w, a, b)] == cur);
    }
    assert(uniform_rect(m0, w, h, r));
    assert forall|a: int, b: int|
        0 <= a < w && 0 <= b < h && (#[trigger] m0[cell(w, a, b)]).normal != 0 && m[cell(
            w,
            a,
            b,
        )].normal == 0 implies exists|k: int| 0 <= k < nr.len() && #[trigger] in_rect(nr[k], a, b) by {
        if in_rect(r, a, b) {
            assert(in_rect(nr[rects.len() as int], a, b));
        } else {
            assert(m[cell(w, a, b)] == mb[cell(w, a, b)]);
            let k = choose|k: int| 0 <= k < rects.len() && #[trigger] in_rect(rects[k], a, b);
            assert(in_rect(nr[k], a, b));
        }
    }
    assert forall|k: int, a: int, b: int|
        0 <= k < nr.len() && #[trigger] in_rect(nr[k], a, b) implies m[cell(w, a, b)].normal == 0 by {
        if k < rects.len() {
            assert(nr[k] == rects[k]);
            assert(uniform_rect(m0, w, h, rects[k]));
            assert(mb[cell(w, a, b)].normal == 0);
        }
    }
    assert forall|k1: int, k2: int, a: int, b: int|
        0 <= k1 < nr.len() && 0 <= k2 < nr.len() && k1 != k2 && #[trigger] in_rect(nr[k1], a, b)
        implies !#[trigger] in_rect(nr[k2], a, b) by {
        if k1 == rects.len() {
            assert(nr[k2] == rects[k2]);
            if in_rect(nr[k2], a, b) {
                assert(mb[cell(w, a, b)].normal == 0);
                assert(mb[cell(w, a, b)] == cur);
            }
        } else if k2 == rects.len() {
            assert(nr[k1] == rects[k1]);
            if in_rect(nr[k2], a, b) {
                assert(mb[cell(w, a, b)].normal == 0);
                assert(mb[cell(w, a, b)] == cur);
            }
        } else {
            assert(nr[k1] == rects[k1]);
            assert(nr[k2] == rects[k2]);
        }
    }
    assert forall|a: int, b: int|
        0 <= a < w && 0 <= b < h && (b < r.v || (b == r.v && a < r.u + r.width)) implies (
    #[trigger] m[cell(w, a, b)]).normal == 0 by {
        if !in_rect(r, a, b) {
            assert(m[cell(w, a, b)] == mb[cell(w, a, b)]);
        }
    }
    assert forall|k: int| 0 <= k < nr.len() implies uniform_rect(m0, w, h, #[trigger] nr[k]) by {
        if k < rects.len() {
            assert(nr[k] == rects[k]);
        }
    }
}

/// Whether cell `(a, b)` lies in one of `rects`.
pub open spec fn covered(rects: Seq<Rect>, a: int, b: int) -> bool {
    exists|k: int| 0 <= k < rects.len() && #[trigger] in_rect(rects[k], a, b)
}

/// Index of the first cell of `r` in a row-major mask `w` cells wide.
pub open spec fn origin(w: int, r: Rect) -> int {
    cell(w, r.u as int, r.v as int)
}

/// Whether rectangle `k` of `rects` is as wide as the mask allows: it ends
/// at the edge, or the next cell of its first row holds another face, or
/// that cell already lies in an earlier rectangle.
pub open spec fn width_maximal(m: Seq<FMask>, w: int, rects: Seq<Rect>, k: int) -> bool {
    let r = rects[k];
    let e = r.u + r.width;
    e == w || m[cell(w, e, r.v as int)] != m[origin(w, r)] || covered(rects.take(k), e, r.v as int)
}

/// Whether rectangle `k` of `rects` is as tall as the mask allows: it ends
/// at the edge, or some cell of the row under it, within its width, holds
/// another face or already lies in an earlier rectangle.
pub open spec fn height_maximal(m: Seq<FMask>, w: int, h: int, rects: Seq<Rect>, k: int) -> bool {
    let r = rects[k];
    let e = r.v + r.height;
    e == h || exists|a: int|
        r.u <= a < r.u + r.width && (#[trigger] m[cell(w, a, e)] != m[origin(w, r)] || covered(
            rects.take(k),
            a,
            e,
        ))
}

/// Whether `rects` come in row-major order of their first cells, each
/// grown as wide and then as tall as the mask `m` allows.
pub open spec fn rects_greedy(m: Seq<FMask>, w: int, h: int, rects: Seq<Rect>) -> bool {
    &&& forall|k1: int, k2: int|
        0 <= k1 < k2 < rects.len() ==> origin(w, #[trigger] rects[k1]) < origin(w, #[trigger] rects[k2])
    &&& forall|k: int| 0 <= k < rects.len() ==> #[trigger] width_maximal(m, w, rects, k) && height_maximal(m, w, h, rects, k)
}

/// The greedy part of the scan state: what was emitted is greedy, and all of
/// it starts before the next cell `(i, j)`.
pub open spec fn greedy_inv(m0: Seq<FMask>, rects: Seq<Rect>, w: int, h: int, i: int, j: int) -> bool {
    &&& rects_greedy(m0, w, h, rects)
    &&& forall|k: int| 0 <= k < rects.len() ==> origin(w, #[trigger] rects[k]) < cell(w, i, j)
}

proof fn lemma_stop_cell(m0: Seq<FMask>, mb: Seq<FMask>, rects: Seq<Rect>, w: int, h: int, i: int, j: int, a: int, b: int, cur: FMask)
    requires
        scan_inv(m0, mb, rects, w, h, i, j),
        0 <= a < w,
        0 <= b < h,
        cur.normal != 0,
        mb[cell(w, a, b)] != cur,
    ensures
        m0[cell(w, a, b)] != cur || covered(rects, a, b),
{
    if mb[cell(w, a, b)].normal != 0 {
        assert(mb[cell(w, a, b)] == m0[cell(w, a, b)]);
    } else if m0[cell(w, a, b)].normal != 0 {
        assert(covered(rects, a, b));
    }
}

proof fn lemma_emit_greedy(
    m0: Seq<FMask>,
    mb: Seq<FMask>,
    rects: Seq<Rect>,
    w: int,
    h: int,
    r: Rect,
    cur: FMask,
)
    requires
        scan_inv(m0, mb, rects, w, h, r.u as int, r.v as int),
        greedy_inv(m0, rects, w, h, r.u as int, r.v as int),
        1 <= r.width,
        1 <= r.height,
        r.u + r.width <= w,
        r.v + r.height <= h,
        cur.normal != 0,
        mb[cell(w, r.u as int, r.v as int)] == cur,
        r.u + r.width == w || mb[cell(w, r.u + r.width, r.v as int)] != cur,
        r.v + r.height == h || exists|a: int| r.u <= a < r.u + r.width && #[trigger] mb[cell(w, a, r.v + r.height)] != cur,
    ensures
        greedy_inv(m0, rects.push(r), w, h, r.u + r.width, r.v as int),
{
    let nr = rects.push(r);
    let n = rects.len() as int;
    assert(nr.take(n) =~= rects);
    assert(rects_greedy(m0, w, h, rects));
    assert(m0[origin(w, r)] == cur) by {
        lemma_cell_bounds(w, h, r.u as int, r.v as int);
    }
    if r.u + r.width < w {
        lemma_cell_bounds(w, h, r.u + r.width, r.v as int);
        lemma_stop_cell(m0, mb, rects, w, h, r.u as int, r.v as int, r.u + r.width, r.v as int, cur);
    }
    if r.v + r.height < h {
        let a = choose|a: int| r.u <= a < r.u + r.width && #[trigger] mb[cell(w, a, r.v + r.height)] != cur;
        lemma_stop_cell(m0, mb, rects, w, h, r.u as int, r.v as int, a, r.v + r.height, cur);
        assert(m0[cell(w, a, r.v + r.height)] != m0[origin(w, r)] || covered(nr.take(n), a, r.v + r.height));
    }
    assert(width_maximal(m0, w, nr, n));
    assert(height_maximal(m0, w, h, nr, n));
    assert forall|k: int| 0 <= k < nr.len() implies #[trigger] width_maximal(m0, w, nr, k) && height_maximal(m0, w, h, nr, k) by {
        if k < n {
            assert(nr[k] == rects[k]);
            assert(nr.take(k) =~= rects.take(k));
            assert(width_maximal(m0, w, rects, k));
            assert(height_maximal(m0, w, h, rects, k));
            if rects[k].v + rects[k].height < h {
                let a = choose|a: int| rects[k].u <= a < rects[k].u + rects[k].width && (#[trigger] m0[cell(w, a, rects[k].v + rects[k].height)] != m0[origin(w, rects[k])] || covered(
                    rects.take(k), a, rects[k].v + rects[k].height));
                assert(m0[cell(w, a, nr[k].v + nr[k].height)] != m0[origin(w, nr[k])] || covered(nr.take(k), a, nr[k].v + nr[k].height));
            }
        }
    }
    assert forall|k1: int, k2: int| 0 <= k1 < k2 < nr.len() implies origin(w, #[trigger] nr[k1]) < origin(w, #[trigger] nr[k2]) by {
        assert(nr[k1] == rects[k1]);
        if k2 < n {
            assert(nr[k2] == rects[k2]);
        }
    }
    assert forall|k: int| 0 <= k < nr.len() implies origin(w, #[trigger] nr[k]) < cell(w, r.u + r.width, r.v as int) by {
        if k < n {
            assert(nr[k] == rects[k]);
        }
    }
}

/// Covers the faces of a `w`×`h` row-major mask with rectangles, scanning
/// the cells in order: from each cell not yet covered a rectangle grows as
/// wide as the row allows and then as tall as every row under it allows.
/// The mask is left with no faces.
pub fn greedy_rects(mask: &mut Vec<FMask>, w: usize, h: usize) -> (rects: Vec<Rect>)
    requires
        old(mask)@.len() == w * h,
        w * h <= usize::MAX,
    ensures
        rects_partition(old(mask)@, w as int, h as int, rects@),
        rects_greedy(old(mask)@, w as int, h as int, rects@),
        final(mask)@.len() == w * h,
        forall|a: int, b: int| 0 <= a < w && 0 <= b < h ==> (#[trigger] final(mask)@[cell(w as int, a, b)]).normal == 0,
        rects@.len() <= w * h,
{
    let ghost m0 = mask@;
    let mut rects: Vec<Rect> = Vec::new();
    let mut j: usize = 0;
    while j < h
        invariant
            j <= h,
            w * h <= usize::MAX,
            rects@.len() <= j * w,
            scan_inv(m0, mask@, rects@, w as int, h as int, 0, j as int),
            greedy_inv(m0, rects@, w as int, h as int, 0, j as int),
        decreases h - j,
    {
        let mut i: usize = 0;
        while i < w
            invariant
                j < h,
                i <= w,
                w * h <= usize::MAX,
                rects@.len() <= j * w + i,
                scan_inv(m0, mask@, rects@, w as int, h as int, i as int, j as int),
                greedy_inv(m0, rects@, w as int, h as int, i as int, j as int),
            decreases w - i,
        {
            proof {
                lemma_cell_bounds(w as int, h as int, i as int, j as int);
            }
            let n = i + j * w;
            if mask[n].normal != 0 {
                let cur = mask[n];
                let mut wd: usize = 1;
                let mut widening = true;
                while widening && i + wd < w
                    invariant
                        j < h,
                        i < w,
                        1 <= wd,
                        i + wd <= w,
                        mask@.len() == w * h,
                        w * h <= usize::MAX,
                        cur.normal != 0,
                        forall|k: int| 0 <= k < wd ==> #[trigger] mask@[cell(w as int, i + k, j as int)] == cur,
                        !widening ==> i + wd < w && mask@[cell(w as int, i + wd, j as int)] != cur,
                    decreases w - i - wd + (if widening { 1int } else { 0int }),
                {
                    proof {
                        lemma_cell_bounds(w as int, h as int, (i + wd) as int, j as int);
                    }
                    if compare_mask(cur, mask[i + wd + j * w]) {
                        wd = wd + 1;
                    } else {
                        widening = false;
                    }
                }
                let mut ht: usize = 1;
                let mut growing = true;
                while growing && j + ht < h
                    invariant
                        j < h,
                        i < w,
                        1 <= wd,
                        i + wd <= w,
                        1 <= ht,
                        j + ht <= h,
                        mask@.len() == w * h,
                        w * h <= usize::MAX,
                        forall|k: int, l: int|
                            0 <= k < wd && 0 <= l < ht ==> #[trigger] mask@[cell(w as int, i + k, j + l)] == cur,
                        !growing ==> j + ht < h && exists|a: int| i <= a < i + wd && #[trigger] mask@[cell(w as int, a, j + ht)] != cur,
                    decreases h - j - ht + (if growing { 1int } else { 0int }),
                {
                    let mut k: usize = 0;
                    let mut ok = true;
                    while ok && k < wd
                        invariant
                            j + ht < h,
                            i + wd <= w,
                            k <= wd,
                            mask@.len() == w * h,
                            w * h <= usize::MAX,
                            ok ==> forall|kk: int| 0 <= kk < k ==> #[trigger] mask@[cell(w as int, i + kk, (j + ht) as int)] == cur,
                            !ok ==> k < wd && mask@[cell(w as int, i + k, (j + ht) as int)] != cur,
                        decreases wd - k + (if ok { 1int } else { 0int }),
                    {
                        proof {
                            lemma_cell_bounds(w as int, h as int, (i + k) as int, (j + ht) as int);
                        }
                        if compare_mask(cur, mask[i + k + (j + ht) * w]) {
                            k = k + 1;
                        } else {
                            ok = false;
                        }
                    }
                    if ok {
                        assert forall|kk: int, l: int| 0 <= kk < wd && 0 <= l < ht + 1 implies #[trigger] mask@[cell(w as int, i + kk, j + l)] == cur by {
                            if l == ht {
                                assert(mask@[cell(w as int, i + kk, (j + ht) as int)] == cur);
                            }
                        }
                        ht = ht + 1;
                    } else {
                        assert(mask@[cell(w as int, (i + k) as int, (j + ht) as int)] != cur);
                        growing = false;
                    }
                }
                let r = Rect { u: i, v: j, width: wd, height: ht };
                let ghost mb = mask@;
                assert forall|a: int, b: int| in_rect(r, a, b) implies #[trigger] mb[cell(w as int, a, b)] == cur by {
                    assert(mb[cell(w as int, i + (a - i), j + (b - j))] == cur);
                }
                clear_rect(mask, w, h, r);
                proof {
                    lemma_emit_greedy(m0, mb, rects@, w as int, h as int, r, cur);
                    lemma_emit_rect(m0, mb, mask@, rects@, w as int, h as int, r, cur);
                }
                rects.push(r);
                i = i + wd;
            } else {
                i = i + 1;
            }
        }
        proof {
            assert(j * w + w == (j + 1) * w) by (nonlinear_arith);
            assert(cell(w as int, w as int, j as int) == cell(w as int, 0, (j + 1) as int));
        }
        j = j + 1;
    }
    proof {
        assert(h * w == w * h) by (nonlinear_arith);
        assert forall|a: int, b: int|
            0 <= a < w && 0 <= b < h && (#[trigger] m0[cell(w as int, a, b)]).normal != 0 implies exists|k: int|
                0 <= k < rects@.len() && #[trigger] in_rect(rects@[k], a, b) by {
            assert(mask@[cell(w as int, a, b)].normal == 0);
        }
        assert forall|a: int, b: int| 0 <= a < w && 0 <= b < h implies (#[trigger] mask@[cell(w as int, a, b)]).normal == 0 by {
        }
    }
    rects
}


/// Component `i` (0 for x, 1 for y, 2 for z) of `p`.
pub open spec fn coord(p: (int, int, int), i: int) -> int {
    if i == 0 {
        p.0
    } else if i == 1 {
        p.1
    } else {
        p.2
    }
}

/// The first in-plane axis of a slice across axis `a`.
pub open spec fn u_axis(a: int) -> int {
    if a == 0 {
        1
    } else if a == 1 {
        2
    } else {
        0
    }
}

/// The second in-plane axis of a slice across axis `a`.
pub open spec fn v_axis(a: int) -> int {
    if a == 0 {
        2
    } else if a == 1 {
        0
    } else {
        1
    }
}

/// The point at `s` along axis `a` and at `(x, y)` in the slice's plane.
pub open spec fn compose(a: int, s: int, x: int, y: int) -> (int, int, int) {
    if a == 0 {
        (s, x, y)
    } else if a == 1 {
        (y, s, x)
    } else {
        (x, y, s)
    }
}

pub open spec fn extent_along<C: Chunk>(c: &C, i: int) -> int {
    coord((c.extent().0 as int, c.extent().1 as int, c.extent().2 as int), i)
}

pub open spec fn quad_pos(q: Quad) -> (int, int, int) {
    (q.voxel[0] as int, q.voxel[1] as int, q.voxel[2] as int)
}

/// Whether quad `q`, facing direction `d`, covers the face of the voxel at
/// `p`: the same slice, and inside its `width` along the first in-plane
/// axis and its `height` along the second.
pub open spec fn quad_covers(d: int, q: Quad, p: (int, int, int)) -> bool {
    let a = d / 2;
    let o = quad_pos(q);
    &&& coord(p, a) == coord(o, a)
    &&& coord(o, u_axis(a)) <= coord(p, u_axis(a)) < coord(o, u_axis(a)) + q.width
    &&& coord(o, v_axis(a)) <= coord(p, v_axis(a)) < coord(o, v_axis(a)) + q.height
}

/// Whether `quads` cover the visible faces of `c` in direction `d` in
/// slice `s` exactly: each covers only visible faces of the voxel it starts
/// at, no two overlap, and each visible face of the slice is in one.
pub open spec fn covers_slice<C: Chunk>(c: &C, d: int, s: int, quads: Seq<Quad>) -> bool {
    let a = d / 2;
    &&& forall|k: int| 0 <= k < quads.len() ==> coord(quad_pos(#[trigger] quads[k]), a) == s
    &&& covers_only_faces(c, d, quads)
    &&& forall|p: (int, int, int)|
        coord(p, a) == s && #[trigger] shows_face(c, d, p) ==> exists|k: int|
            0 <= k < quads.len() && #[trigger] quad_covers(d, quads[k], p)
}

/// Each quad covers only visible faces of the voxel it starts at, and no
/// two quads overlap.
pub open spec fn covers_only_faces<C: Chunk>(c: &C, d: int, quads: Seq<Quad>) -> bool {
    &&& forall|k: int| 0 <= k < quads.len() ==> 1 <= (#[trigger] quads[k]).width && 1 <= quads[k].height
    &&& forall|k: int, p: (int, int, int)|
        0 <= k < quads.len() && #[trigger] quad_covers(d, quads[k], p) ==> shows_face(c, d, p)
            && c.voxel_at(p.0, p.1, p.2) == c.voxel_at(
            quad_pos(quads[k]).0,
            quad_pos(quads[k]).1,
            quad_pos(quads[k]).2,
        )
    &&& forall|k1: int, k2: int, p: (int, int, int)|
        0 <= k1 < quads.len() && 0 <= k2 < quads.len() && k1 != k2 && #[trigger] quad_covers(
            d,
            quads[k1],
            p,
        ) ==> !#[trigger] quad_covers(d, quads[k2], p)
}

/// Whether `quads` cover the visible faces of `c` in direction `d` exactly.
pub open spec fn covers_faces<C: Chunk>(c: &C, d: int, quads: Seq<Quad>) -> bool {
    &&& covers_only_faces(c, d, quads)
    &&& forall|p: (int, int, int)|
        #[trigger] shows_face(c, d, p) ==> exists|k: int|
            0 <= k < quads.len() && #[trigger] quad_covers(d, quads[k], p)
}

/// The sign of direction `d`: -1 for X-, Y-, Z-, and 1 for X+, Y+, Z+.
pub open spec fn dir_sign(d: int) -> i8 {
    if d % 2 == 0 {
        -1i8
    } else {
        1i8
    }
}

/// The mask cell of slice `s` across direction `d` at `(x, y)`, counted
/// from the first interior voxel of the plane.
pub open spec fn mask_cell<C: Chunk>(c: &C, d: int, s: int, x: int, y: int) -> FMask {
    let p = compose(d / 2, s, x + 1, y + 1);
    if shows_face(c, d, p) {
        FMask { voxel: c.voxel_at(p.0, p.1, p.2), normal: dir_sign(d) }
    } else {
        no_face()
    }
}

proof fn lemma_cell_divmod(w: int, a: int, b: int)
    requires
        0 <= a < w,
        0 <= b,
    ensures
        cell(w, a, b) % w == a,
        cell(w, a, b) / w == b,
{
    vstd::arithmetic::div_mod::lemma_fundamental_div_mod_converse(cell(w, a, b), w, b, a);
}

fn extent_at(e: (u32, u32, u32), i: usize) -> (r: usize)
    requires
        i < 3,
    ensures
        r == coord((e.0 as int, e.1 as int, e.2 as int), i as int),
{
    if i == 0 {
        e.0 as usize
    } else if i == 1 {
        e.1 as usize
    } else {
        e.2 as usize
    }
}

fn compose_exec(a: usize, s: usize, x: usize, y: usize) -> (r: [usize; 3])
    requires
        a < 3,
    ensures
        (r[0] as int, r[1] as int, r[2] as int) == compose(a as int, s as int, x as int, y as int),
{
    if a == 0 {
        [s, x, y]
    } else if a == 1 {
        [y, s, x]
    } else {
        [x, y, s]
    }
}

proof fn lemma_plane_fits<C: Chunk>(c: &C, a: int)
    requires
        extents_ok(c),
        0 <= a < 3,
    ensures
        (extent_along(c, u_axis(a)) - 2) * (extent_along(c, v_axis(a)) - 2) <= usize::MAX,
{
    let ex = c.extent().0 as int;
    let ey = c.extent().1 as int;
    let ez = c.extent().2 as int;
    assert((ex - 2) * (ey - 2) <= ex * ey * ez && (ey - 2) * (ez - 2) <= ex * ey * ez && (ez - 2) * (ex - 2)
        <= ex * ey * ez) by (nonlinear_arith)
        requires
            ex >= 2,
            ey >= 2,
            ez >= 2,
    ;
}

/// The mask of slice `s` across direction `d`, over the interior of the
/// plane, row-major.
fn layer_mask<C: Chunk>(chunk: &C, d: usize, s: usize) -> (r: Vec<FMask>)
    requires
        d < 6,
        extents_ok(chunk),
        chunk.extent().0 <= u32::MAX,
        chunk.extent().1 <= u32::MAX,
        chunk.extent().2 <= u32::MAX,
        1 <= s <= extent_along(chunk, d as int / 2) - 2,
    ensures
        r@.len() == (extent_along(chunk, u_axis(d as int / 2)) - 2) * (extent_along(
            chunk,
            v_axis(d as int / 2),
        ) - 2),
        forall|x: int, y: int|
            0 <= x < extent_along(chunk, u_axis(d as int / 2)) - 2 && 0 <= y < extent_along(
                chunk,
                v_axis(d as int / 2),
            ) - 2 ==> #[trigger] r@[cell(extent_along(chunk, u_axis(d as int / 2)) - 2, x, y)]
                == mask_cell(chunk, d as int, s as int, x, y),
{
    let a = d / 2;
    let e = chunk.extents();
    let ua: usize = if a == 0 { 1 } else if a == 1 { 2 } else { 0 };
    let va: usize = if a == 0 { 2 } else if a == 1 { 0 } else { 1 };
    let w = extent_at(e, ua) - 2;
    let h = extent_at(e, va) - 2;
    proof {
        lemma_plane_fits(chunk, a as int);
    }
    let total = w * h;
    let sign: i8 = if d % 2 == 0 { -1 } else { 1 };
    let mut mask: Vec<FMask> = Vec::new();
    let mut k: usize = 0;
    while k < total
        invariant
            d < 6,
            a == d / 2,
            ua == u_axis(a as int),
            va == v_axis(a as int),
            w == extent_along(chunk, ua as int) - 2,
            h == extent_along(chunk, va as int) - 2,
            total == w * h,
            e.0 == chunk.extent().0,
            e.1 == chunk.extent().1,
            e.2 == chunk.extent().2,
            extents_ok(chunk),
            1 <= s <= extent_along(chunk, a as int) - 2,
            sign == dir_sign(d as int),
            k <= total,
            mask@.len() == k,
            forall|kk: int|
                0 <= kk < k ==> #[trigger] mask@[kk] == mask_cell(chunk, d as int, s as int, kk % (w as int), kk / (w as int)),
        decreases total - k,
    {
        let x = k % w;
        let y = k / w;
        proof {
            assert(y < h) by (nonlinear_arith)
                requires
                    k < w * h,
                    y == k / w,
                    w > 0,
            {
                vstd::arithmetic::div_mod::lemma_multiply_divide_lt(k as int, w as int, h as int);
            }
        }
        let pv = compose_exec(a, s, x + 1, y + 1);
        let ghost p = compose(a as int, s as int, x + 1, y + 1);
        let o = if d == 0 {
            [pv[0] - 1, pv[1], pv[2]]
        } else if d == 1 {
            [pv[0] + 1, pv[1], pv[2]]
        } else if d == 2 {
            [pv[0], pv[1] - 1, pv[2]]
        } else if d == 3 {
            [pv[0], pv[1] + 1, pv[2]]
        } else if d == 4 {
            [pv[0], pv[1], pv[2] - 1]
        } else {
            [pv[0], pv[1], pv[2] + 1]
        };
        assert(interior(chunk, p.0, p.1, p.2));
        let voxel = chunk.get(pv[0] as u32, pv[1] as u32, pv[2] as u32);
        let neighbor = chunk.get(o[0] as u32, o[1] as u32, o[2] as u32);
        if emits_face(voxel, neighbor) {
            mask.push(FMask { voxel, normal: sign });
        } else {
            mask.push(FMask { voxel: VoxelType::Empty, normal: 0 });
        }
        k = k + 1;
    }
    proof {
        assert forall|x: int, y: int| 0 <= x < w && 0 <= y < h implies #[trigger] mask@[cell(w as int, x, y)]
            == mask_cell(chunk, d as int, s as int, x, y) by {
            lemma_cell_divmod(w as int, x, y);
            lemma_cell_bounds(w as int, h as int, x, y);
        }
    }
    mask
}


/// Whether quad `q` stands for rectangle `r` of slice `s` across axis `a`.
pub open spec fn quad_from_rect(q: Quad, a: int, s: int, r: Rect) -> bool {
    quad_pos(q) == compose(a, s, r.u + 1, r.v + 1) && q.width == r.width && q.height == r.height
}

proof fn lemma_compose_coords(a: int, s: int, x: int, y: int)
    requires
        0 <= a < 3,
    ensures
        coord(compose(a, s, x, y), a) == s,
        coord(compose(a, s, x, y), u_axis(a)) == x,
        coord(compose(a, s, x, y), v_axis(a)) == y,
{
}

proof fn lemma_point_composed(a: int, p: (int, int, int))
    requires
        0 <= a < 3,
    ensures
        p == compose(a, coord(p, a), coord(p, u_axis(a)), coord(p, v_axis(a))),
{
}

#[verifier::rlimit(60)]
proof fn lemma_layer_cover<C: Chunk>(
    c: &C,
    d: int,
    s: int,
    m0: Seq<FMask>,
    rects: Seq<Rect>,
    quads: Seq<Quad>,
)
    requires
        0 <= d < 6,
        extents_ok(c),
        m0.len() == (extent_along(c, u_axis(d / 2)) - 2) * (extent_along(c, v_axis(d / 2)) - 2),
        forall|x: int, y: int|
            0 <= x < extent_along(c, u_axis(d / 2)) - 2 && 0 <= y < extent_along(c, v_axis(d / 2)) - 2
                ==> #[trigger] m0[cell(extent_along(c, u_axis(d / 2)) - 2, x, y)] == mask_cell(
                c,
                d,
                s,
                x,
                y,
            ),
        rects_partition(
            m0,
            extent_along(c, u_axis(d / 2)) - 2,
            extent_along(c, v_axis(d / 2)) - 2,
            rects,
        ),
        quads.len() == rects.len(),
        forall|k: int| 0 <= k < quads.len() ==> quad_from_rect(#[trigger] quads[k], d / 2, s, rects[k]),
    ensures
        covers_slice(c, d, s, quads),
{
    let a = d / 2;
    let w = extent_along(c, u_axis(a)) - 2;
    let h = extent_along(c, v_axis(a)) - 2;
    assert forall|k: int, p: (int, int, int)| 0 <= k < quads.len() && #[trigger] quad_covers(
        d,
        quads[k],
        p,
    ) implies in_rect(rects[k], coord(p, u_axis(a)) - 1, coord(p, v_axis(a)) - 1) && coord(p, a)
        == s && p == compose(a, s, coord(p, u_axis(a)), coord(p, v_axis(a))) by {
        assert(quad_from_rect(quads[k], a, s, rects[k]));
        let r = rects[k];
        lemma_compose_coords(a, s, r.u + 1, r.v + 1);
        lemma_point_composed(a, p);
    }
    assert forall|k: int| 0 <= k < quads.len() implies coord(quad_pos(#[trigger] quads[k]), a) == s by {
        assert(quad_from_rect(quads[k], a, s, rects[k]));
        lemma_compose_coords(a, s, rects[k].u + 1, rects[k].v + 1);
    }
    assert forall|k: int| 0 <= k < quads.len() implies 1 <= (#[trigger] quads[k]).width && 1
        <= quads[k].height by {
        assert(quad_from_rect(quads[k], a, s, rects[k]));
        assert(uniform_rect(m0, w, h, rects[k]));
    }
    assert forall|k: int, p: (int, int, int)|
        0 <= k < quads.len() && #[trigger] quad_covers(d, quads[k], p) implies shows_face(c, d, p)
        && c.voxel_at(p.0, p.1, p.2) == c.voxel_at(
        quad_pos(quads[k]).0,
        quad_pos(quads[k]).1,
        quad_pos(quads[k]).2,
    ) by {
        let r = rects[k];
        assert(quad_from_rect(quads[k], a, s, r));
        assert(uniform_rect(m0, w, h, r));
        let x = coord(p, u_axis(a)) - 1;
        let y = coord(p, v_axis(a)) - 1;
        assert(in_rect(r, x, y));
        assert(m0[cell(w, x, y)] == m0[cell(w, r.u as int, r.v as int)]);
        assert(m0[cell(w, x, y)] == mask_cell(c, d, s, x, y));
        assert(m0[cell(w, r.u as int, r.v as int)] == mask_cell(c, d, s, r.u as int, r.v as int));
    }
    assert forall|k1: int, k2: int, p: (int, int, int)|
        0 <= k1 < quads.len() && 0 <= k2 < quads.len() && k1 != k2 && #[trigger] quad_covers(
            d,
            quads[k1],
            p,
        ) implies !#[trigger] quad_covers(d, quads[k2], p) by {
        let x = coord(p, u_axis(a)) - 1;
        let y = coord(p, v_axis(a)) - 1;
        if quad_covers(d, quads[k2], p) {
            assert(in_rect(rects[k1], x, y));
            assert(in_rect(rects[k2], x, y));
        }
    }
    assert forall|p: (int, int, int)| coord(p, a) == s && #[trigger] shows_face(c, d, p) implies exists|k: int|
        0 <= k < quads.len() && #[trigger] quad_covers(d, quads[k], p) by {
        let x = coord(p, u_axis(a)) - 1;
        let y = coord(p, v_axis(a)) - 1;
        lemma_point_composed(a, p);
        assert(0 <= x < w && 0 <= y < h);
        assert(m0[cell(w, x, y)] == mask_cell(c, d, s, x, y));
        assert(m0[cell(w, x, y)].normal != 0);
        let k = choose|k: int| 0 <= k < rects.len() && #[trigger] in_rect(rects[k], x, y);
        assert(quad_from_rect(quads[k], a, s, rects[k]));
        lemma_compose_coords(a, s, rects[k].u + 1, rects[k].v + 1);
        assert(quad_covers(d, quads[k], p));
    }
}

/// The mask cell of the face of the voxel at `p` in direction `d`: that
/// voxel and the direction's sign when the face shows, else no face.
pub open spec fn face_cell<C: Chunk>(c: &C, d: int, p: (int, int, int)) -> FMask {
    if shows_face(c, d, p) {
        FMask { voxel: c.voxel_at(p.0, p.1, p.2), normal: dir_sign(d) }
    } else {
        no_face()
    }
}

/// Whether the face of the voxel at `p` in direction `d` lies in one of
/// `quads`.
pub open spec fn covered_by(d: int, quads: Seq<Quad>, p: (int, int, int)) -> bool {
    exists|k: int| 0 <= k < quads.len() && #[trigger] quad_covers(d, quads[k], p)
}

/// Whether quad `k` of `quads`, facing direction `d`, is as wide as the
/// faces allow: it ends at the edge of the interior, or the face just past
/// its first row differs from its own, or that face lies in an earlier quad.
pub open spec fn quad_width_maximal<C: Chunk>(c: &C, d: int, quads: Seq<Quad>, k: int) -> bool {
    let a = d / 2;
    let o = quad_pos(quads[k]);
    let e = coord(o, u_axis(a)) + quads[k].width;
    let p = compose(a, coord(o, a), e, coord(o, v_axis(a)));
    e == extent_along(c, u_axis(a)) - 1 || face_cell(c, d, p) != face_cell(c, d, o) || covered_by(d, quads.take(k), p)
}

/// Whether quad `k` of `quads`, facing direction `d`, is as tall as the
/// faces allow: it ends at the edge of the interior, or some face of the
/// row past it, within its width, differs from its own or lies in an
/// earlier quad.
pub open spec fn quad_height_maximal<C: Chunk>(c: &C, d: int, quads: Seq<Quad>, k: int) -> bool {
    let a = d / 2;
    let o = quad_pos(quads[k]);
    let e = coord(o, v_axis(a)) + quads[k].height;
    e == extent_along(c, v_axis(a)) - 1 || exists|x: int|
        coord(o, u_axis(a)) <= x < coord(o, u_axis(a)) + quads[k].width && (#[trigger] face_cell(
            c,
            d,
            compose(a, coord(o, a), x, e),
        ) != face_cell(c, d, o) || covered_by(d, quads.take(k), compose(a, coord(o, a), x, e)))
}

/// Where a quad facing direction `d` starts: its slice, then its first
/// cell in row-major order of the slice's interior.
pub open spec fn quad_key<C: Chunk>(c: &C, d: int, q: Quad) -> (int, int) {
    let a = d / 2;
    let o = quad_pos(q);
    (coord(o, a), cell(extent_along(c, u_axis(a)) - 2, coord(o, u_axis(a)) - 1, coord(o, v_axis(a)) - 1))
}

pub open spec fn key_lt(k1: (int, int), k2: (int, int)) -> bool {
    k1.0 < k2.0 || (k1.0 == k2.0 && k1.1 < k2.1)
}

/// Whether `quads` facing direction `d` are what greedy merging gives:
/// slice by slice and in row-major order within a slice, each quad grown
/// as wide and then as tall as the faces allow.
pub open spec fn quads_greedy<C: Chunk>(c: &C, d: int, quads: Seq<Quad>) -> bool {
    &&& forall|k1: int, k2: int|
        0 <= k1 < k2 < quads.len() ==> key_lt(quad_key(c, d, #[trigger] quads[k1]), quad_key(c, d, #[trigger] quads[k2]))
    &&& forall|k: int| 0 <= k < quads.len() ==> #[trigger] quad_width_maximal(c, d, quads, k) && quad_height_maximal(c, d, quads, k)
}

#[verifier::rlimit(60)]
proof fn lemma_layer_greedy<C: Chunk>(c: &C, d: int, s: int, m0: Seq<FMask>, rects: Seq<Rect>, quads: Seq<Quad>)
    requires
        0 <= d < 6,
        extents_ok(c),
        m0.len() == (extent_along(c, u_axis(d / 2)) - 2) * (extent_along(c, v_axis(d / 2)) - 2),
        forall|x: int, y: int|
            0 <= x < extent_along(c, u_axis(d / 2)) - 2 && 0 <= y < extent_along(c, v_axis(d / 2)) - 2
                ==> #[trigger] m0[cell(extent_along(c, u_axis(d / 2)) - 2, x, y)] == mask_cell(c, d, s, x, y),
        rects_partition(m0, extent_along(c, u_axis(d / 2)) - 2, extent_along(c, v_axis(d / 2)) - 2, rects),
        rects_greedy(m0, extent_along(c, u_axis(d / 2)) - 2, extent_along(c, v_axis(d / 2)) - 2, rects),
        quads.len() == rects.len(),
        forall|k: int| 0 <= k < quads.len() ==> quad_from_rect(#[trigger] quads[k], d / 2, s, rects[k]),
    ensures
        quads_greedy(c, d, quads),
{
    let a = d / 2;
    let w = extent_along(c, u_axis(a)) - 2;
    let h = extent_along(c, v_axis(a)) - 2;
    assert forall|k: int, x: int, y: int| 0 <= k <= quads.len() && covered(rects.take(k), x, y)
        implies covered_by(d, quads.take(k), compose(a, s, x + 1, y + 1)) by {
        let k2 = choose|k2: int| 0 <= k2 < rects.take(k).len() && #[trigger] in_rect(rects.take(k)[k2], x, y);
        assert(quad_from_rect(quads[k2], a, s, rects[k2]));
        lemma_compose_coords(a, s, x + 1, y + 1);
        lemma_compose_coords(a, s, rects[k2].u + 1, rects[k2].v + 1);
        assert(quads.take(k)[k2] == quads[k2]);
        assert(quad_covers(d, quads.take(k)[k2], compose(a, s, x + 1, y + 1)));
    }
    assert forall|k1: int, k2: int| 0 <= k1 < k2 < quads.len() implies key_lt(quad_key(c, d, #[trigger] quads[k1]), quad_key(c, d, #[trigger] quads[k2])) by {
        assert(quad_from_rect(quads[k1], a, s, rects[k1]));
        assert(quad_from_rect(quads[k2], a, s, rects[k2]));
        lemma_compose_coords(a, s, rects[k1].u + 1, rects[k1].v + 1);
        lemma_compose_coords(a, s, rects[k2].u + 1, rects[k2].v + 1);
        assert(origin(w, rects[k1]) < origin(w, rects[k2]));
    }
    assert forall|k: int| 0 <= k < quads.len() implies #[trigger] quad_width_maximal(c, d, quads, k) && quad_height_maximal(c, d, quads, k) by {
        let r = rects[k];
        assert(quad_from_rect(quads[k], a, s, r));
        assert(uniform_rect(m0, w, h, r));
        lemma_compose_coords(a, s, r.u + 1, r.v + 1);
        let o = quad_pos(quads[k]);
        assert(width_maximal(m0, w, rects, k));
        assert(height_maximal(m0, w, h, rects, k));
        lemma_cell_bounds(w, h, r.u as int, r.v as int);
        assert(m0[origin(w, r)] == face_cell(c, d, o));
        if r.u + r.width < w {
            let e = r.u + r.width;
            lemma_cell_bounds(w, h, e, r.v as int);
            assert(m0[cell(w, e, r.v as int)] == face_cell(c, d, compose(a, s, e + 1, r.v + 1)));
        }
        if r.v + r.height < h {
            let e = r.v + r.height;
            let x = choose|x: int| r.u <= x < r.u + r.width && (#[trigger] m0[cell(w, x, e)] != m0[origin(w, r)] || covered(rects.take(k), x, e));
            lemma_cell_bounds(w, h, x, e);
            assert(m0[cell(w, x, e)] == face_cell(c, d, compose(a, s, x + 1, e + 1)));
            assert(face_cell(c, d, compose(a, coord(o, a), x + 1, coord(o, v_axis(a)) + quads[k].height)) != face_cell(c, d, o)
                || covered_by(d, quads.take(k), compose(a, coord(o, a), x + 1, coord(o, v_axis(a)) + quads[k].height)));
        }
    }
}

proof fn lemma_append_greedy<C: Chunk>(c: &C, d: int, s: int, old_q: Seq<Quad>, lq: Seq<Quad>)
    requires
        0 <= d < 6,
        quads_greedy(c, d, old_q),
        quads_greedy(c, d, lq),
        forall|k: int| 0 <= k < old_q.len() ==> coord(quad_pos(#[trigger] old_q[k]), d / 2) < s,
        forall|k: int| 0 <= k < lq.len() ==> coord(quad_pos(#[trigger] lq[k]), d / 2) == s,
    ensures
        quads_greedy(c, d, old_q + lq),
{
    let all = old_q + lq;
    let n = old_q.len();
    assert forall|k1: int, k2: int| 0 <= k1 < k2 < all.len() implies key_lt(quad_key(c, d, #[trigger] all[k1]), quad_key(c, d, #[trigger] all[k2])) by {
        if k2 < n {
            assert(all[k1] == old_q[k1] && all[k2] == old_q[k2]);
        } else if k1 >= n {
            assert(all[k1] == lq[k1 - n] && all[k2] == lq[k2 - n]);
        } else {
            assert(all[k1] == old_q[k1] && all[k2] == lq[k2 - n]);
        }
    }
    assert forall|k: int| 0 <= k < all.len() implies #[trigger] quad_width_maximal(c, d, all, k) && quad_height_maximal(c, d, all, k) by {
        if k < n {
            assert(all[k] == old_q[k]);
            assert(all.take(k) =~= old_q.take(k));
            assert(quad_width_maximal(c, d, old_q, k));
            assert(quad_height_maximal(c, d, old_q, k));
        } else {
            let k2 = k - n;
            assert(all[k] == lq[k2]);
            assert(quad_width_maximal(c, d, lq, k2));
            assert(quad_height_maximal(c, d, lq, k2));
            assert forall|p: (int, int, int)| covered_by(d, lq.take(k2), p) implies covered_by(d, all.take(k), p) by {
                let j = choose|j: int| 0 <= j < lq.take(k2).len() && #[trigger] quad_covers(d, lq.take(k2)[j], p);
                assert(all.take(k)[j + n] == lq[j]);
            }
            let a = d / 2;
            let o = quad_pos(lq[k2]);
            let e = coord(o, v_axis(a)) + lq[k2].height;
            if e != extent_along(c, v_axis(a)) - 1 {
                let x = choose|x: int| coord(o, u_axis(a)) <= x < coord(o, u_axis(a)) + lq[k2].width && (#[trigger] face_cell(
                    c, d, compose(a, coord(o, a), x, e)) != face_cell(c, d, o) || covered_by(d, lq.take(k2), compose(a, coord(o, a), x, e)));
                assert(face_cell(c, d, compose(a, coord(o, a), x, e)) != face_cell(c, d, o) || covered_by(d, all.take(k), compose(a, coord(o, a), x, e)));
            }
        }
    }
}

/// The greedy quads of slice `s` across direction `d`.
fn layer_quads<C: Chunk>(chunk: &C, d: usize, s: usize) -> (r: Vec<Quad>)
    requires
        d < 6,
        extents_ok(chunk),
        chunk.extent().0 <= u32::MAX,
        chunk.extent().1 <= u32::MAX,
        chunk.extent().2 <= u32::MAX,
        1 <= s <= extent_along(chunk, d as int / 2) - 2,
    ensures
        covers_slice(chunk, d as int, s as int, r@),
        quads_greedy(chunk, d as int, r@),
        r@.len() <= (extent_along(chunk, u_axis(d as int / 2)) - 2) * (extent_along(chunk, v_axis(d as int / 2)) - 2),
{
    let a = d / 2;
    let e = chunk.extents();
    let ua: usize = if a == 0 { 1 } else if a == 1 { 2 } else { 0 };
    let va: usize = if a == 0 { 2 } else if a == 1 { 0 } else { 1 };
    let w = extent_at(e, ua) - 2;
    let h = extent_at(e, va) - 2;
    proof {
        lemma_plane_fits(chunk, a as int);
    }
    let mut mask = layer_mask(chunk, d, s);
    let ghost m0 = mask@;
    let rects = greedy_rects(&mut mask, w, h);
    let mut out: Vec<Quad> = Vec::new();
    let mut k: usize = 0;
    while k < rects.len()
        invariant
            a == d / 2,
            a < 3,
            k <= rects@.len(),
            out@.len() == k,
            rects_partition(m0, w as int, h as int, rects@),
            w <= u32::MAX,
            h <= u32::MAX,
            forall|i: int| 0 <= i < k ==> quad_from_rect(#[trigger] out@[i], a as int, s as int, rects@[i]),
        decreases rects@.len() - k,
    {
        let r = rects[k];
        assert(uniform_rect(m0, w as int, h as int, rects@[k as int]));
        let voxel = compose_exec(a, s, r.u + 1, r.v + 1);
        out.push(Quad { voxel, width: r.width as u32, height: r.height as u32 });
        k = k + 1;
    }
    proof {
        lemma_layer_cover(chunk, d as int, s as int, m0, rects@, out@);
        lemma_layer_greedy(chunk, d as int, s as int, m0, rects@, out@);
    }
    out
}


proof fn lemma_append_layer<C: Chunk>(c: &C, d: int, s: int, old_q: Seq<Quad>, lq: Seq<Quad>)
    requires
        0 <= d < 6,
        covers_only_faces(c, d, old_q),
        forall|k: int| 0 <= k < old_q.len() ==> coord(quad_pos(#[trigger] old_q[k]), d / 2) < s,
        forall|p: (int, int, int)|
            coord(p, d / 2) < s && #[trigger] shows_face(c, d, p) ==> exists|k: int|
                0 <= k < old_q.len() && #[trigger] quad_covers(d, old_q[k], p),
        covers_slice(c, d, s, lq),
    ensures
        covers_only_faces(c, d, old_q + lq),
        forall|k: int| 0 <= k < (old_q + lq).len() ==> coord(quad_pos(#[trigger] (old_q + lq)[k]), d / 2) < s + 1,
        forall|p: (int, int, int)|
            coord(p, d / 2) < s + 1 && #[trigger] shows_face(c, d, p) ==> exists|k: int|
                0 <= k < (old_q + lq).len() && #[trigger] quad_covers(d, (old_q + lq)[k], p),
{
    let a = d / 2;
    let all = old_q + lq;
    let n = old_q.len();
    assert forall|k: int| 0 <= k < all.len() implies 1 <= (#[trigger] all[k]).width && 1 <= all[k].height by {
        if k < n {
            assert(all[k] == old_q[k]);
        } else {
            assert(all[k] == lq[k - n]);
        }
    }
    assert forall|k: int, p: (int, int, int)|
        0 <= k < all.len() && #[trigger] quad_covers(d, all[k], p) implies shows_face(c, d, p)
        && c.voxel_at(p.0, p.1, p.2) == c.voxel_at(
        quad_pos(all[k]).0,
        quad_pos(all[k]).1,
        quad_pos(all[k]).2,
    ) by {
        if k < n {
            assert(all[k] == old_q[k]);
        } else {
            assert(all[k] == lq[k - n]);
        }
    }
    assert forall|k1: int, k2: int, p: (int, int, int)|
        0 <= k1 < all.len() && 0 <= k2 < all.len() && k1 != k2 && #[trigger] quad_covers(
            d,
            all[k1],
            p,
        ) implies !#[trigger] quad_covers(d, all[k2], p) by {
        if k1 < n && k2 < n {
            assert(all[k1] == old_q[k1] && all[k2] == old_q[k2]);
        } else if k1 >= n && k2 >= n {
            assert(all[k1] == lq[k1 - n] && all[k2] == lq[k2 - n]);
        } else if k1 < n {
            assert(all[k1] == old_q[k1] && all[k2] == lq[k2 - n]);
            assert(coord(quad_pos(lq[k2 - n]), a) == s);
        } else {
            assert(all[k1] == lq[k1 - n] && all[k2] == old_q[k2]);
            assert(coord(quad_pos(lq[k1 - n]), a) == s);
        }
    }
    assert forall|k: int| 0 <= k < all.len() implies coord(quad_pos(#[trigger] all[k]), a) < s + 1 by {
        if k < n {
            assert(all[k] == old_q[k]);
        } else {
            assert(all[k] == lq[k - n]);
        }
    }
    assert forall|p: (int, int, int)| coord(p, a) < s + 1 && #[trigger] shows_face(c, d, p) implies exists|k: int|
        0 <= k < all.len() && #[trigger] quad_covers(d, all[k], p) by {
        if coord(p, a) < s {
            let k = choose|k: int| 0 <= k < old_q.len() && #[trigger] quad_covers(d, old_q[k], p);
            assert(all[k] == old_q[k]);
        } else {
            let k = choose|k: int| 0 <= k < lq.len() && #[trigger] quad_covers(d, lq[k], p);
            assert(all[k + n] == lq[k]);
        }
    }
}

/// The greedy quads of every slice across direction `d`.
fn greedy_direction<C: Chunk>(chunk: &C, d: usize) -> (r: Vec<Quad>)
    requires
        d < 6,
        extents_ok(chunk),
        chunk.extent().0 <= u32::MAX,
        chunk.extent().1 <= u32::MAX,
        chunk.extent().2 <= u32::MAX,
    ensures
        covers_faces(chunk, d as int, r@),
        quads_greedy(chunk, d as int, r@),
        r@.len() <= volume(chunk),
{
    let a = d / 2;
    let e = chunk.extents();
    let ea = extent_at(e, a);
    let mut out: Vec<Quad> = Vec::new();
    let mut s: usize = 1;
    while s < ea - 1
        invariant
            d < 6,
            a == d / 2,
            ea == extent_along(chunk, a as int),
            e.0 == chunk.extent().0,
            e.1 == chunk.extent().1,
            e.2 == chunk.extent().2,
            extents_ok(chunk),
            chunk.extent().0 <= u32::MAX,
            chunk.extent().1 <= u32::MAX,
            chunk.extent().2 <= u32::MAX,
            1 <= s,
            s <= ea,
            covers_only_faces(chunk, d as int, out@),
            quads_greedy(chunk, d as int, out@),
            forall|k: int| 0 <= k < out@.len() ==> coord(quad_pos(#[trigger] out@[k]), a as int) < s,
            forall|p: (int, int, int)|
                coord(p, a as int) < s && #[trigger] shows_face(chunk, d as int, p) ==> exists|k: int|
                    0 <= k < out@.len() && #[trigger] quad_covers(d as int, out@[k], p),
            out@.len() <= (s - 1) * (extent_along(chunk, u_axis(a as int)) * extent_along(chunk, v_axis(a as int))),
        decreases ea - s,
    {
        let mut lq = layer_quads(chunk, d, s);
        proof {
            let eu = extent_along(chunk, u_axis(a as int));
            let ev = extent_along(chunk, v_axis(a as int));
            assert((eu - 2) * (ev - 2) <= eu * ev && (s - 1) * (eu * ev) + eu * ev == s * (eu * ev)) by (nonlinear_arith)
                requires
                    eu >= 2,
                    ev >= 2,
            ;
        }
        proof {
            lemma_append_layer(chunk, d as int, s as int, out@, lq@);
            lemma_append_greedy(chunk, d as int, s as int, out@, lq@);
        }
        out.append(&mut lq);
        s = s + 1;
    }
    proof {
        assert forall|p: (int, int, int)| #[trigger] shows_face(chunk, d as int, p) implies exists|k: int|
            0 <= k < out@.len() && #[trigger] quad_covers(d as int, out@[k], p) by {
            assert(coord(p, a as int) < s);
        }
        let eu = extent_along(chunk, u_axis(a as int));
        let ev = extent_along(chunk, v_axis(a as int));
        assert((s - 1) * (eu * ev) <= ea * (eu * ev)) by (nonlinear_arith)
            requires
                1 <= s <= ea,
                eu >= 0,
                ev >= 0,
        ;
        assert(ea * (eu * ev) == volume(chunk)) by (nonlinear_arith)
            requires
                ea == extent_along(chunk, a as int),
                eu == extent_along(chunk, u_axis(a as int)),
                ev == extent_along(chunk, v_axis(a as int)),
                0 <= a < 3,
                volume(chunk) == chunk.extent().0 * chunk.extent().1 * chunk.extent().2,
        {
            if a == 0 {
            } else if a == 1 {
            } else {
            }
        }
    }
    out
}

/// The greedy mesh of `chunk`: for each direction, rectangles of faces
/// that together cover every face that face culling emits in that
/// direction exactly once, each rectangle showing one voxel type.
pub fn generate_greedy_mesh<C: Chunk>(chunk: &C) -> (r: QuadGroups)
    requires
        extents_ok(chunk),
        chunk.extent().0 <= u32::MAX,
        chunk.extent().1 <= u32::MAX,
        chunk.extent().2 <= u32::MAX,
    ensures
        forall|d: int| 0 <= d < 6 ==> covers_faces(chunk, d, #[trigger] r.groups[d]@),
        forall|d: int| 0 <= d < 6 ==> quads_greedy(chunk, d, #[trigger] r.groups[d]@),
        forall|d: int| 0 <= d < 6 ==> (#[trigger] r.groups[d]@).len() <= volume(chunk),
{
    let g0 = greedy_direction(chunk, 0);
    let g1 = greedy_direction(chunk, 1);
    let g2 = greedy_direction(chunk, 2);
    let g3 = greedy_direction(chunk, 3);
    let g4 = greedy_direction(chunk, 4);
    let g5 = greedy_direction(chunk, 5);
    QuadGroups { groups: [g0, g1, g2, g3, g4, g5] }
}


/// Vertex `j` of the greedy quad `q` facing direction `d`: its corners on
/// the face plane, `width` along the first in-plane axis and `height` along
/// the second, with the border left out.
pub open spec fn greedy_vertex(d: int, q: Quad, j: int) -> (int, int, int) {
    let a = d / 2;
    let o = quad_pos(q);
    compose(
        a,
        coord(o, a) - 1 + d % 2,
        coord(o, u_axis(a)) - 1 + (if j == 1 || j == 3 { q.width as int } else { 0 }),
        coord(o, v_axis(a)) - 1 + (if j >= 2 { q.height as int } else { 0 }),
    )
}

/// The two triangles of a greedy quad whose first vertex is `start`, wound
/// so that they face direction `d`.
pub open spec fn quad_indices(d: int, start: int) -> Seq<int> {
    if d % 2 == 1 {
        seq![start, start + 1, start + 3, start + 3, start + 2, start]
    } else {
        seq![start, start + 3, start + 1, start + 3, start, start + 2]
    }
}

/// Texture coordinate of vertex `j` of quad `q` facing direction `d`,
/// repeating once per voxel.
pub open spec fn quad_uv(d: int, q: Quad, j: int) -> (int, int) {
    let w = q.width as int;
    let h = q.height as int;
    if d / 2 == 0 {
        if j == 0 { (w, h) } else if j == 1 { (0, h) } else if j == 2 { (w, 0) } else { (0, 0) }
    } else {
        if j == 0 { (w, h) } else if j == 1 { (h, 0) } else if j == 2 { (0, w) } else { (0, 0) }
    }
}

/// Whether `m` is the geometry of the greedy quads `faces`: four vertices
/// per quad, unoccluded, and two triangles over them, quads in order.
pub open spec fn greedy_mesh_matches(m: &MeshData, faces: Seq<(int, Quad)>) -> bool {
    let n = faces.len();
    &&& m.positions@.len() == 4 * n
    &&& m.normals@.len() == 4 * n
    &&& m.uvs@.len() == 4 * n
    &&& m.aos@.len() == 4 * n
    &&& m.indices@.len() == 6 * n
    &&& forall|i: int|
        0 <= i < 4 * n ==> {
            let f = faces[i / 4];
            &&& (#[trigger] m.positions@[i][0] as int, m.positions@[i][1] as int, m.positions@[i][2] as int)
                == greedy_vertex(f.0, f.1, i % 4)
            &&& (m.normals@[i][0] as int, m.normals@[i][1] as int, m.normals@[i][2] as int) == dir_offset(f.0)
            &&& (m.uvs@[i][0] as int, m.uvs@[i][1] as int) == quad_uv(f.0, f.1, i % 4)
            &&& m.aos@[i] == 3
        }
    &&& forall|i: int|
        0 <= i < 6 * n ==> #[trigger] m.indices@[i] as int == quad_indices(faces[i / 6].0, 4 * (i / 6))[i % 6]
}

pub open spec fn quad_fits(q: Quad) -> bool {
    1 <= q.voxel[0] <= u32::MAX && 1 <= q.voxel[1] <= u32::MAX && 1 <= q.voxel[2] <= u32::MAX
}

fn compose_u64(a: usize, s: u64, x: u64, y: u64) -> (r: [u64; 3])
    requires
        a < 3,
    ensures
        (r[0] as int, r[1] as int, r[2] as int) == compose(a as int, s as int, x as int, y as int),
{
    if a == 0 {
        [s, x, y]
    } else if a == 1 {
        [y, s, x]
    } else {
        [x, y, s]
    }
}

fn coord_exec(v: [usize; 3], i: usize) -> (r: u64)
    requires
        i < 3,
        v[0] <= u32::MAX && v[1] <= u32::MAX && v[2] <= u32::MAX,
    ensures
        r == coord((v[0] as int, v[1] as int, v[2] as int), i as int),
{
    if i == 0 {
        v[0] as u64
    } else if i == 1 {
        v[1] as u64
    } else {
        v[2] as u64
    }
}

/// Appends the geometry of the greedy quad `q` facing direction `d`.
pub fn create_quad(mesh: &mut MeshData, d: usize, q: Quad)
    requires
        d < 6,
        quad_fits(q),
        old(mesh).positions@.len() + 4 <= u32::MAX,
    ensures
        final(mesh).positions@.len() == old(mesh).positions@.len() + 4,
        forall|i: int| 0 <= i < old(mesh).positions@.len() ==> #[trigger] final(mesh).positions@[i] == old(mesh).positions@[i],
        forall|j: int| 0 <= j < 4 ==> {
            let v = #[trigger] final(mesh).positions@[old(mesh).positions@.len() + j];
            (v[0] as int, v[1] as int, v[2] as int) == greedy_vertex(d as int, q, j)
        },
        final(mesh).normals@.len() == old(mesh).normals@.len() + 4,
        forall|i: int| 0 <= i < old(mesh).normals@.len() ==> #[trigger] final(mesh).normals@[i] == old(mesh).normals@[i],
        forall|j: int| 0 <= j < 4 ==> {
            let n = #[trigger] final(mesh).normals@[old(mesh).normals@.len() + j];
            (n[0] as int, n[1] as int, n[2] as int) == dir_offset(d as int)
        },
        final(mesh).uvs@.len() == old(mesh).uvs@.len() + 4,
        forall|i: int| 0 <= i < old(mesh).uvs@.len() ==> #[trigger] final(mesh).uvs@[i] == old(mesh).uvs@[i],
        forall|j: int| 0 <= j < 4 ==> {
            let u = #[trigger] final(mesh).uvs@[old(mesh).uvs@.len() + j];
            (u[0] as int, u[1] as int) == quad_uv(d as int, q, j)
        },
        final(mesh).aos@ == old(mesh).aos@ + seq![3u32, 3u32, 3u32, 3u32],
        final(mesh).indices@.len() == old(mesh).indices@.len() + 6,
        forall|i: int| 0 <= i < old(mesh).indices@.len() ==> #[trigger] final(mesh).indices@[i] == old(mesh).indices@[i],
        forall|j: int| 0 <= j < 6 ==> #[trigger] final(mesh).indices@[old(mesh).indices@.len() + j] as int
            == quad_indices(d as int, old(mesh).positions@.len() as int)[j],
{
    let a = d / 2;
    let ua: usize = if a == 0 { 1 } else if a == 1 { 2 } else { 0 };
    let va: usize = if a == 0 { 2 } else if a == 1 { 0 } else { 1 };
    let pa = coord_exec(q.voxel, a) - 1 + (d % 2) as u64;
    let pu = coord_exec(q.voxel, ua) - 1;
    let pv = coord_exec(q.voxel, va) - 1;
    let w = q.width as u64;
    let h = q.height as u64;
    let start = mesh.positions.len() as u32;
    mesh.positions.push(compose_u64(a, pa, pu, pv));
    mesh.positions.push(compose_u64(a, pa, pu + w, pv));
    mesh.positions.push(compose_u64(a, pa, pu, pv + h));
    mesh.positions.push(compose_u64(a, pa, pu + w, pv + h));
    let normal: [i32; 3] = if d == 0 {
        [-1, 0, 0]
    } else if d == 1 {
        [1, 0, 0]
    } else if d == 2 {
        [0, -1, 0]
    } else if d == 3 {
        [0, 1, 0]
    } else if d == 4 {
        [0, 0, -1]
    } else {
        [0, 0, 1]
    };
    mesh.normals.push(normal);
    mesh.normals.push(normal);
    mesh.normals.push(normal);
    mesh.normals.push(normal);
    let qw = q.width;
    let qh = q.height;
    if a == 0 {
        mesh.uvs.push([qw, qh]);
        mesh.uvs.push([0, qh]);
        mesh.uvs.push([qw, 0]);
        mesh.uvs.push([0, 0]);
    } else {
        mesh.uvs.push([qw, qh]);
        mesh.uvs.push([qh, 0]);
        mesh.uvs.push([0, qw]);
        mesh.uvs.push([0, 0]);
    }
    mesh.aos.push(3);
    mesh.aos.push(3);
    mesh.aos.push(3);
    mesh.aos.push(3);
    if d % 2 == 1 {
        mesh.indices.push(start);
        mesh.indices.push(start + 1);
        mesh.indices.push(start + 3);
        mesh.indices.push(start + 3);
        mesh.indices.push(start + 2);
        mesh.indices.push(start);
    } else {
        mesh.indices.push(start);
        mesh.indices.push(start + 3);
        mesh.indices.push(start + 1);
        mesh.indices.push(start + 3);
        mesh.indices.push(start);
        mesh.indices.push(start + 2);
    }
    proof {
        assert(final(mesh).aos@ =~= old(mesh).aos@ + seq![3u32, 3u32, 3u32, 3u32]);
    }
}


proof fn lemma_flat_mono(g: &QuadGroups, d: nat)
    requires
        d <= 6,
    ensures
        forall|d2: nat| d <= d2 <= 6 ==> flat_faces(g, d).len() <= #[trigger] flat_faces(g, d2).len(),
    decreases 6 - d,
{
    if d < 6 {
        lemma_flat_mono(g, d + 1);
        assert(flat_faces(g, d + 1).len() == flat_faces(g, d).len() + g.groups[d as int]@.len());
    }
}

proof fn lemma_flat_len_upto(g: &QuadGroups, d: nat, bound: int)
    requires
        d <= 6,
        forall|dd: int| 0 <= dd < 6 ==> (#[trigger] g.groups[dd]@).len() <= bound,
    ensures
        flat_faces(g, d).len() <= d * bound,
    decreases d,
{
    if d > 0 {
        lemma_flat_len_upto(g, (d - 1) as nat, bound);
        assert((d - 1) * bound + bound == d * bound) by (nonlinear_arith);
    }
}

/// The geometry of the greedy quads `groups`, direction by direction.
pub fn greedy_geometry(groups: &QuadGroups) -> (r: MeshData)
    requires
        forall|d: int, i: int| 0 <= d < 6 && 0 <= i < groups.groups[d]@.len() ==> quad_fits(#[trigger] groups.groups[d]@[i]),
        4 * flat_faces(groups, 6).len() + 4 <= u32::MAX,
    ensures
        greedy_mesh_matches(&r, flat_faces(groups, 6)),
{
    let mut m = MeshData { positions: Vec::new(), normals: Vec::new(), uvs: Vec::new(), aos: Vec::new(), indices: Vec::new() };
    let mut d: usize = 0;
    while d < 6
        invariant
            d <= 6,
            forall|dd: int, i: int| 0 <= dd < 6 && 0 <= i < groups.groups[dd]@.len() ==> quad_fits(#[trigger] groups.groups[dd]@[i]),
            4 * flat_faces(groups, 6).len() + 4 <= u32::MAX,
            greedy_mesh_matches(&m, flat_faces(groups, d as nat)),
        decreases 6 - d,
    {
        let group = &groups.groups[d];
        let ghost base = flat_faces(groups, d as nat);
        proof {
            assert(flat_faces(groups, (d + 1) as nat) == base + group@.map_values(|q: Quad| (d as int, q)));
            lemma_flat_mono(groups, (d + 1) as nat);
            assert(flat_faces(groups, (d + 1) as nat).len() <= flat_faces(groups, 6).len());
        }
        let mut i: usize = 0;
        while i < group.len()
            invariant
                d < 6,
                group == &groups.groups[d as int],
                base == flat_faces(groups, d as nat),
                base.len() + group@.len() <= flat_faces(groups, 6).len(),
                forall|k: int| 0 <= k < group@.len() ==> quad_fits(#[trigger] group@[k]),
                4 * flat_faces(groups, 6).len() + 4 <= u32::MAX,
                i <= group@.len(),
                greedy_mesh_matches(&m, base + group@.take(i as int).map_values(|q: Quad| (d as int, q))),
            decreases group@.len() - i,
        {
            let q = group[i];
            let ghost faces = base + group@.take(i as int).map_values(|q: Quad| (d as int, q));
            let ghost nfaces = base + group@.take(i + 1).map_values(|q: Quad| (d as int, q));
            let ghost old_m = m;
            proof {
                assert(nfaces =~= faces.push((d as int, q)));
                assert(quad_fits(group@[i as int]));
            }
            create_quad(&mut m, d, q);
            proof {
                let n = faces.len() as int;
                assert(nfaces.len() == n + 1);
                assert forall|k: int| 0 <= k < 4 * (n + 1) implies {
                    let f = nfaces[k / 4];
                    &&& (#[trigger] m.positions@[k][0] as int, m.positions@[k][1] as int, m.positions@[k][2] as int)
                        == greedy_vertex(f.0, f.1, k % 4)
                    &&& (m.normals@[k][0] as int, m.normals@[k][1] as int, m.normals@[k][2] as int) == dir_offset(f.0)
                    &&& (m.uvs@[k][0] as int, m.uvs@[k][1] as int) == quad_uv(f.0, f.1, k % 4)
                    &&& m.aos@[k] == 3
                } by {
                    if k < 4 * n {
                        assert(m.positions@[k] == old_m.positions@[k]);
                        assert(m.normals@[k] == old_m.normals@[k]);
                        assert(m.uvs@[k] == old_m.uvs@[k]);
                        assert(m.aos@[k] == old_m.aos@[k]);
                        assert(nfaces[k / 4] == faces[k / 4]);
                    } else {
                        let j = k - 4 * n;
                        assert(k / 4 == n && k % 4 == j);
                        assert(m.positions@[old_m.positions@.len() + j] == m.positions@[k]);
                        assert(m.aos@[k] == 3u32);
                    }
                }
                assert forall|k: int| 0 <= k < 6 * (n + 1) implies #[trigger] m.indices@[k] as int
                    == quad_indices(nfaces[k / 6].0, 4 * (k / 6))[k % 6] by {
                    if k < 6 * n {
                        assert(m.indices@[k] == old_m.indices@[k]);
                        assert(nfaces[k / 6] == faces[k / 6]);
                    } else {
                        let j = k - 6 * n;
                        assert(k / 6 == n && k % 6 == j);
                        assert(m.indices@[old_m.indices@.len() + j] == m.indices@[k]);
                    }
                }
            }
            i = i + 1;
        }
        proof {
            assert(group@.take(i as int) =~= group@);
        }
        d = d + 1;
    }
    m
}


/// The greedy mesh of `chunk` as geometry: the greedy quads of its visible
/// faces (an exact cover, each quad grown as wide and then as tall as the
/// faces allow, in slice and row-major order), each emitted as four
/// vertices and two triangles wound towards the direction it faces.
pub fn create_chunk_mesh<C: Chunk>(chunk: &C) -> (r: MeshData)
    requires
        extents_ok(chunk),
        chunk.extent().0 <= u32::MAX,
        chunk.extent().1 <= u32::MAX,
        chunk.extent().2 <= u32::MAX,
        24 * volume(chunk) + 4 <= u32::MAX,
    ensures
        exists|g: QuadGroups|
            (forall|d: int| 0 <= d < 6 ==> covers_faces(chunk, d, #[trigger] g.groups[d]@))
                && (forall|d: int| 0 <= d < 6 ==> quads_greedy(chunk, d, #[trigger] g.groups[d]@))
                && greedy_mesh_matches(&r, #[trigger] flat_faces(&g, 6)),
{
    let groups = generate_greedy_mesh(chunk);
    proof {
        lemma_flat_len_upto(&groups, 6, volume(chunk));
        assert forall|d: int, i: int| 0 <= d < 6 && 0 <= i < groups.groups[d]@.len() implies quad_fits(#[trigger] groups.groups[d]@[i]) by {
            let q = groups.groups[d]@[i];
            assert(covers_faces(chunk, d, groups.groups[d]@));
            let o = quad_pos(q);
            assert(quad_covers(d, groups.groups[d]@[i], o));
            assert(shows_face(chunk, d, o));
        }
    }
    let r = greedy_geometry(&groups);
    proof {
        assert(greedy_mesh_matches(&r, flat_faces(&groups, 6)));
    }
    r
}

} // verus!
