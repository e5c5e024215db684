//! Tile coordinates, tile rectangles, and the range computation that turns a
//! list of per-(zoom, box) rectangles into a minimal, non-overlapping cover.

use vstd::prelude::*;
use vstd::arithmetic::power2::{pow2, lemma2_to64};
use vstd::arithmetic::div_mod::lemma_fundamental_div_mod_converse;
use vstd::bits::lemma_u32_shl_is_mul;

verus! {

/// One tile in the power-of-two tile pyramid: `x, y` in `[0, 2^z - 1]`,
/// indexed from the top-left.
#[derive(Clone, Copy, PartialEq, Eq, Structural, Debug, Hash, PartialOrd, Ord)]
pub struct TileCoord {
    pub z: u8,
    pub x: u32,
    pub y: u32,
}

/// An axis-aligned inclusive range of tile coordinates at one zoom level.
#[derive(Clone, Copy, PartialEq, Eq, Structural, Debug)]
pub struct TileRect {
    pub zoom: u8,
    pub min_x: u32,
    pub min_y: u32,
    pub max_x: u32,
    pub max_y: u32,
}

impl TileRect {
    /// Well-formedness: a non-empty range whose bounds fit the pyramid level.
    pub open spec fn valid(self) -> bool {
        &&& self.zoom < 32
        &&& self.min_x <= self.max_x
        &&& self.min_y <= self.max_y
        &&& (self.max_x as nat) < pow2(self.zoom as nat)
        &&& (self.max_y as nat) < pow2(self.zoom as nat)
    }

    pub open spec fn spec_width(self) -> nat {
        (self.max_x - self.min_x + 1) as nat
    }

    pub open spec fn spec_height(self) -> nat {
        (self.max_y - self.min_y + 1) as nat
    }

    /// Number of tiles in the rectangle.
    pub open spec fn spec_size(self) -> nat {
        self.spec_width() * self.spec_height()
    }

    /// The set of tiles the rectangle covers, each as a `(z, x, y)` triple.
    pub open spec fn tiles(self) -> Set<(int, int, int)> {
        Set::new(|t: (int, int, int)|
            t.0 == self.zoom as int
            && self.min_x <= t.1 <= self.max_x
            && self.min_y <= t.2 <= self.max_y)
    }

    /// Number of tiles in the rectangle.
    pub fn size(&self) -> (n: u64)
        requires
            self.valid(),
        ensures
            n == self.spec_size(),
    {
        proof {
            lemma_pow2_32_bound(self.zoom as nat);
        }
        let w: u64 = (self.max_x - self.min_x) as u64 + 1;
        let h: u64 = (self.max_y - self.min_y) as u64 + 1;
        proof {
            assert(w * h <= 0x8000_0000u64 * 0x8000_0000u64) by (nonlinear_arith)
                requires
                    0 <= w <= 0x8000_0000u64,
                    0 <= h <= 0x8000_0000u64,
            ;
        }
        w * h
    }
}

/// The bounds of a valid rectangle fit in 32 bits.
proof fn lemma_pow2_32_bound(z: nat)
    requires
        z < 32,
    ensures
        pow2(z) <= 0x8000_0000,
{
    lemma2_to64();
}

/// Every rectangle in the sequence is well formed.
pub open spec fn all_valid(rs: Seq<TileRect>) -> bool {
    forall|i: int| 0 <= i < rs.len() ==> #[trigger] rs[i].valid()
}

/// The union of the tiles covered by a sequence of rectangles.
pub open spec fn coverage(rs: Seq<TileRect>) -> Set<(int, int, int)> {
    Set::new(|t: (int, int, int)|
        exists|i: int| 0 <= i < rs.len() && #[trigger] rs[i].tiles().contains(t))
}

/// Two rectangles cover no tile in common.
pub open spec fn rects_disjoint(a: TileRect, b: TileRect) -> bool {
    a.tiles().disjoint(b.tiles())
}

/// No two rectangles of the sequence cover a tile in common.
pub open spec fn pairwise_disjoint(rs: Seq<TileRect>) -> bool {
    forall|i: int, j: int|
        0 <= i < rs.len() && 0 <= j < rs.len() && i != j
            ==> rects_disjoint(#[trigger] rs[i], #[trigger] rs[j])
}

/// Axis-interval test equivalent to the two rectangles sharing a tile.
pub open spec fn spec_overlaps(a: TileRect, b: TileRect) -> bool {
    &&& a.zoom == b.zoom
    &&& a.min_x <= b.max_x
    &&& b.min_x <= a.max_x
    &&& a.min_y <= b.max_y
    &&& b.min_y <= a.max_y
}

/// For well-formed rectangles, interval overlap and tile-set overlap agree.
pub proof fn lemma_overlap_iff_shared_tile(a: TileRect, b: TileRect)
    requires
        a.valid(),
        b.valid(),
    ensures
        spec_overlaps(a, b) <==> !rects_disjoint(a, b),
{
    if spec_overlaps(a, b) {
        let x = if a.min_x >= b.min_x { a.min_x as int } else { b.min_x as int };
        let y = if a.min_y >= b.min_y { a.min_y as int } else { b.min_y as int };
        let t = (a.zoom as int, x, y);
        assert(a.tiles().contains(t) && b.tiles().contains(t));
    }
    if !rects_disjoint(a, b) {
        let t = choose|t: (int, int, int)| a.tiles().contains(t) && b.tiles().contains(t);
        assert(spec_overlaps(a, b));
    }
}

fn overlaps(a: &TileRect, b: &TileRect) -> (r: bool)
    ensures
        r == spec_overlaps(*a, *b),
{
    a.zoom == b.zoom
        && a.min_x <= b.max_x
        && b.min_x <= a.max_x
        && a.min_y <= b.max_y
        && b.min_y <= a.max_y
}

/// `b` lies entirely inside `a`.
pub open spec fn spec_contains_rect(a: TileRect, b: TileRect) -> bool {
    &&& a.zoom == b.zoom
    &&& a.min_x <= b.min_x
    &&& b.max_x <= a.max_x
    &&& a.min_y <= b.min_y
    &&& b.max_y <= a.max_y
}

fn contains_rect(a: &TileRect, b: &TileRect) -> (r: bool)
    ensures
        r == spec_contains_rect(*a, *b),
{
    a.zoom == b.zoom
        && a.min_x <= b.min_x
        && b.max_x <= a.max_x
        && a.min_y <= b.min_y
        && b.max_y <= a.max_y
}

/// Each rectangle's tiles are part of the coverage of the whole sequence.
pub proof fn lemma_rect_in_coverage(rs: Seq<TileRect>, i: int)
    requires
        0 <= i < rs.len(),
    ensures
        rs[i].tiles().subset_of(coverage(rs)),
{
    assert forall|t: (int, int, int)| rs[i].tiles().contains(t)
        implies coverage(rs).contains(t) by {
        assert(0 <= i < rs.len() && rs[i].tiles().contains(t));
    }
}

/// Appending a rectangle extends the coverage by exactly its tiles.
pub proof fn lemma_coverage_push(rs: Seq<TileRect>, r: TileRect)
    ensures
        coverage(rs.push(r)) == coverage(rs).union(r.tiles()),
{
    assert forall|t: (int, int, int)| coverage(rs.push(r)).contains(t)
        implies coverage(rs).union(r.tiles()).contains(t) by {
        let i = choose|i: int| 0 <= i < rs.push(r).len() && #[trigger] rs.push(r)[i].tiles().contains(t);
        if i < rs.len() {
            assert(rs[i].tiles().contains(t));
        } else {
            assert(rs.push(r)[i] == r);
        }
    }
    assert forall|t: (int, int, int)| coverage(rs).union(r.tiles()).contains(t)
        implies coverage(rs.push(r)).contains(t) by {
        if coverage(rs).contains(t) {
            let i = choose|i: int| 0 <= i < rs.len() && #[trigger] rs[i].tiles().contains(t);
            assert(rs.push(r)[i].tiles().contains(t));
        } else {
            assert(rs.push(r)[rs.len() as int].tiles().contains(t));
        }
    }
    assert(coverage(rs.push(r)) =~= coverage(rs).union(r.tiles()));
}

/// Widening one rectangle to a superset of its tiles extends the coverage by
/// exactly the widened rectangle's tiles.
pub proof fn lemma_coverage_widen(rs: Seq<TileRect>, i: int, m: TileRect)
    requires
        0 <= i < rs.len(),
        rs[i].tiles().subset_of(m.tiles()),
    ensures
        coverage(rs.update(i, m)) == coverage(rs).union(m.tiles()),
{
    let rs2 = rs.update(i, m);
    assert forall|t: (int, int, int)| coverage(rs2).contains(t)
        implies coverage(rs).union(m.tiles()).contains(t) by {
        let j = choose|j: int| 0 <= j < rs2.len() && #[trigger] rs2[j].tiles().contains(t);
        if j != i {
            assert(rs[j].tiles().contains(t));
        }
    }
    assert forall|t: (int, int, int)| coverage(rs).union(m.tiles()).contains(t)
        implies coverage(rs2).contains(t) by {
        if m.tiles().contains(t) {
            assert(rs2[i].tiles().contains(t));
        } else {
            let j = choose|j: int| 0 <= j < rs.len() && #[trigger] rs[j].tiles().contains(t);
            if j == i {
                assert(m.tiles().contains(t));
            } else {
                assert(rs2[j].tiles().contains(t));
            }
        }
    }
    assert(coverage(rs2) =~= coverage(rs).union(m.tiles()));
}

/// A product of positive factors grows strictly when one factor shrinks
/// strictly and the other does not grow.
proof fn lemma_size_strict_mono(w1: nat, h1: nat, w2: nat, h2: nat)
    requires
        w1 <= w2,
        h1 <= h2,
        w1 < w2 || h1 < h2,
        1 <= w2,
        1 <= h2,
    ensures
        w1 * h1 < w2 * h2,
{
    assert(w1 * h1 < w2 * h2) by (nonlinear_arith)
        requires
            w1 <= w2,
            h1 <= h2,
            w1 < w2 || h1 < h2,
            1 <= w2,
            1 <= h2,
    ;
}

/// Index of the first rectangle whose tiles intersect `rect`, if any.
fn find_overlap(ranges: &Vec<TileRect>, rect: &TileRect) -> (r: Option<usize>)
    ensures
        match r {
            Some(i) => i < ranges@.len() && spec_overlaps(ranges@[i as int], *rect),
            None => forall|k: int| 0 <= k < ranges@.len() ==> !spec_overlaps(ranges@[k], *rect),
        },
{
    let mut i: usize = 0;
    while i < ranges.len()
        invariant
            i <= ranges@.len(),
            forall|k: int| 0 <= k < i ==> !spec_overlaps(ranges@[k], *rect),
        decreases ranges@.len() - i,
    {
        if overlaps(&ranges[i], rect) {
            return Some(i);
        }
        i = i + 1;
    }
    None
}

/// `a` and `b` share the same row range and their column ranges abut, so that
/// the widened rectangle covers exactly the union of their tiles.
pub open spec fn spec_mergeable(a: TileRect, b: TileRect) -> bool {
    &&& a.zoom == b.zoom
    &&& a.min_y == b.min_y
    &&& a.max_y == b.max_y
    &&& (a.max_x + 1 == b.min_x || b.max_x + 1 == a.min_x)
}

fn mergeable(a: &TileRect, b: &TileRect) -> (r: bool)
    ensures
        r == spec_mergeable(*a, *b),
{
    a.zoom == b.zoom
        && a.min_y == b.min_y
        && a.max_y == b.max_y
        && ((b.min_x > 0 && a.max_x == b.min_x - 1) || (a.min_x > 0 && b.max_x == a.min_x - 1))
}

/// Index of the first rectangle that can absorb `rect` by widening, if any.
fn find_merge(ranges: &Vec<TileRect>, rect: &TileRect) -> (r: Option<usize>)
    ensures
        match r {
            Some(i) => i < ranges@.len() && spec_mergeable(ranges@[i as int], *rect),
            None => true,
        },
{
    let mut i: usize = 0;
    while i < ranges.len()
        invariant
            i <= ranges@.len(),
        decreases ranges@.len() - i,
    {
        if mergeable(&ranges[i], rect) {
            return Some(i);
        }
        i = i + 1;
    }
    None
}

/// The tiles of an optional split piece.
pub open spec fn opt_tiles(o: Option<TileRect>) -> Set<(int, int, int)> {
    match o {
        Some(r) => r.tiles(),
        None => Set::empty(),
    }
}

/// Add `rect` to an accumulating list of non-overlapping rectangles.
///
/// The resulting list covers exactly the old coverage plus `rect`'s tiles and
/// stays pairwise disjoint, so no tile is ever enumerated twice. A rectangle
/// already covered is dropped; one that abuts an entry with the same row range
/// widens it; one that partially overlaps an entry is split into the parts
/// that lie outside it, which are added in turn.
pub fn append_rect(ranges: &mut Vec<TileRect>, rect: TileRect)
    requires
        rect.valid(),
        all_valid(old(ranges)@),
        pairwise_disjoint(old(ranges)@),
    ensures
        all_valid(final(ranges)@),
        pairwise_disjoint(final(ranges)@),
        coverage(final(ranges)@) == coverage(old(ranges)@).union(rect.tiles()),
    decreases rect.spec_size(),
{
    let ghost cov0 = coverage(ranges@);
    match find_overlap(ranges, &rect) {
        None => {
            proof {
                assert forall|k: int| 0 <= k < ranges@.len()
                    implies rects_disjoint(ranges@[k], rect) by {
                    lemma_overlap_iff_shared_tile(ranges@[k], rect);
                }
            }
            match find_merge(ranges, &rect) {
                Some(i) => {
                    let e = ranges[i];
                    proof {
                        assert(ranges@[i as int].valid());
                    }
                    let min_x = if e.min_x < rect.min_x { e.min_x } else { rect.min_x };
                    let max_x = if e.max_x > rect.max_x { e.max_x } else { rect.max_x };
                    let merged = TileRect {
                        zoom: e.zoom,
                        min_x,
                        min_y: e.min_y,
                        max_x,
                        max_y: e.max_y,
                    };
                    proof {
                        assert(merged.tiles() =~= e.tiles().union(rect.tiles()));
                        lemma_coverage_widen(ranges@, i as int, merged);
                    }
                    ranges.set(i, merged);
                    proof {
                        assert forall|k: int| 0 <= k < ranges@.len()
                            implies #[trigger] ranges@[k].valid() by {
                            if k != i as int {
                                assert(old(ranges)@[k].valid());
                            } else {
                                assert(merged.valid());
                            }
                        }
                        assert forall|p: int, q: int|
                            0 <= p < ranges@.len() && 0 <= q < ranges@.len() && p != q
                            implies rects_disjoint(ranges@[p], ranges@[q]) by {
                            if p != i as int && q != i as int {
                                assert(rects_disjoint(old(ranges)@[p], old(ranges)@[q]));
                            }
                        }
                        assert(coverage(ranges@) =~= cov0.union(rect.tiles()));
                    }
                }
                None => {
                    ranges.push(rect);
                    proof {
                        lemma_coverage_push(old(ranges)@, rect);
                        assert forall|k: int| 0 <= k < ranges@.len()
                            implies #[trigger] ranges@[k].valid() by {
                            if k < old(ranges)@.len() {
                                assert(old(ranges)@[k].valid());
                            }
                        }
                        assert forall|p: int, q: int|
                            0 <= p < ranges@.len() && 0 <= q < ranges@.len() && p != q
                            implies rects_disjoint(ranges@[p], ranges@[q]) by {
                            if p < old(ranges)@.len() && q < old(ranges)@.len() {
                                assert(rects_disjoint(old(ranges)@[p], old(ranges)@[q]));
                            }
                        }
                    }
                }
            }
        }
        Some(i) => {
            let e = ranges[i];
            proof {
                assert(e.valid());
                lemma_rect_in_coverage(ranges@, i as int);
            }
            if contains_rect(&e, &rect) {
                proof {
                    assert(rect.tiles().subset_of(e.tiles()));
                    assert(coverage(ranges@) =~= cov0.union(rect.tiles()));
                }
                return;
            }
            // Split the parts of `rect` that stick out of `e`: the column
            // strips to its left and right over the full row range, then the
            // row strips above and below it over the shared column range.
            let zoom = rect.zoom;
            let left: Option<TileRect> = if rect.min_x < e.min_x {
                Some(TileRect {
                    zoom,
                    min_x: rect.min_x,
                    min_y: rect.min_y,
                    max_x: e.min_x - 1,
                    max_y: rect.max_y,
                })
            } else {
                None
            };
            let right: Option<TileRect> = if rect.max_x > e.max_x {
                Some(TileRect {
                    zoom,
                    min_x: e.max_x + 1,
                    min_y: rect.min_y,
                    max_x: rect.max_x,
                    max_y: rect.max_y,
                })
            } else {
                None
            };
            let mid_min_x = if rect.min_x > e.min_x { rect.min_x } else { e.min_x };
            let mid_max_x = if rect.max_x < e.max_x { rect.max_x } else { e.max_x };
            let top: Option<TileRect> = if rect.min_y < e.min_y {
                Some(TileRect {
                    zoom,
                    min_x: mid_min_x,
                    min_y: rect.min_y,
                    max_x: mid_max_x,
                    max_y: e.min_y - 1,
                })
            } else {
                None
            };
            let bottom: Option<TileRect> = if rect.max_y > e.max_y {
                Some(TileRect {
                    zoom,
                    min_x: mid_min_x,
                    min_y: e.max_y + 1,
                    max_x: mid_max_x,
                    max_y: rect.max_y,
                })
            } else {
                None
            };
            proof {
                lemma_pow2_32_bound(zoom as nat);
                if let Some(p) = left {
                    lemma_size_strict_mono(
                        p.spec_width(), p.spec_height(), rect.spec_width(), rect.spec_height());
                }
                if let Some(p) = right {
                    lemma_size_strict_mono(
                        p.spec_width(), p.spec_height(), rect.spec_width(), rect.spec_height());
                }
                if let Some(p) = top {
                    lemma_size_strict_mono(
                        p.spec_width(), p.spec_height(), rect.spec_width(), rect.spec_height());
                }
                if let Some(p) = bottom {
                    lemma_size_strict_mono(
                        p.spec_width(), p.spec_height(), rect.spec_width(), rect.spec_height());
                }
            }
            if let Some(p) = left {
                append_rect(ranges, p);
            }
            proof {
                assert(coverage(ranges@) == cov0.union(opt_tiles(left)));
            }
            if let Some(p) = right {
                append_rect(ranges, p);
            }
            proof {
                assert(coverage(ranges@) == cov0.union(opt_tiles(left)).union(opt_tiles(right)));
            }
            if let Some(p) = top {
                append_rect(ranges, p);
            }
            proof {
                assert(coverage(ranges@)
                    == cov0.union(opt_tiles(left)).union(opt_tiles(right)).union(opt_tiles(top)));
            }
            if let Some(p) = bottom {
                append_rect(ranges, p);
            }
            proof {
                let cov = cov0.union(opt_tiles(left)).union(opt_tiles(right))
                    .union(opt_tiles(top)).union(opt_tiles(bottom));
                assert(coverage(ranges@) == cov);
                assert forall|t: (int, int, int)| rect.tiles().contains(t)
                    implies cov.contains(t) by {
                    if e.tiles().contains(t) {
                        assert(cov0.contains(t));
                    } else if t.1 < e.min_x {
                        assert(opt_tiles(left).contains(t));
                    } else if t.1 > e.max_x {
                        assert(opt_tiles(right).contains(t));
                    } else if t.2 < e.min_y {
                        assert(opt_tiles(top).contains(t));
                    } else {
                        assert(opt_tiles(bottom).contains(t));
                    }
                }
                assert(coverage(ranges@) =~= cov0.union(rect.tiles()));
            }
        }
    }
}

/// Sum of the rectangle sizes.
pub open spec fn total_size(rs: Seq<TileRect>) -> nat
    decreases rs.len(),
{
    if rs.len() == 0 {
        0
    } else {
        total_size(rs.drop_last()) + rs.last().spec_size()
    }
}

/// Turn one rectangle per (zoom, bounding box) pair into a minimal set of
/// non-overlapping rectangles covering exactly the same tiles.
pub fn compute_tile_ranges(rects: &Vec<TileRect>) -> (ranges: Vec<TileRect>)
    requires
        all_valid(rects@),
    ensures
        all_valid(ranges@),
        pairwise_disjoint(ranges@),
        coverage(ranges@) == coverage(rects@),
{
    let mut ranges: Vec<TileRect> = Vec::new();
    proof {
        assert(coverage(ranges@) =~= coverage(rects@.take(0)));
    }
    let mut i: usize = 0;
    while i < rects.len()
        invariant
            i <= rects@.len(),
            all_valid(rects@),
            all_valid(ranges@),
            pairwise_disjoint(ranges@),
            coverage(ranges@) == coverage(rects@.take(i as int)),
        decreases rects@.len() - i,
    {
        append_rect(&mut ranges, rects[i]);
        proof {
            assert(rects@.take(i + 1 as int) =~= rects@.take(i as int).push(rects@[i as int]));
            lemma_coverage_push(rects@.take(i as int), rects@[i as int]);
        }
        i = i + 1;
    }
    proof {
        assert(rects@.take(rects@.len() as int) =~= rects@);
    }
    ranges
}

/// Expand the caller's zoom selection: an explicit max (with optional min,
/// default 0) expands to every level in `[min, max]`; otherwise the explicit
/// level list is used as given.
pub fn expand_zooms(min_zoom: Option<u8>, max_zoom: Option<u8>, zoom_levels: &Vec<u8>) -> (zooms:
    Vec<u8>)
    ensures
        match max_zoom {
            Some(mx) => ({
                let mn: int = match min_zoom {
                    Some(m) => m as int,
                    None => 0,
                };
                &&& zooms@.len() == if mn <= mx as int {
                    mx as int - mn + 1
                } else {
                    0
                }
                &&& forall|k: int| 0 <= k < zooms@.len() ==> #[trigger] zooms@[k] as int == mn + k
            }),
            None => zooms@ == zoom_levels@,
        },
{
    match max_zoom {
        Some(mx) => {
            let mn: u8 = match min_zoom {
                Some(m) => m,
                None => 0,
            };
            let mut zooms: Vec<u8> = Vec::new();
            let mut z: u16 = mn as u16;
            while z <= mx as u16
                invariant
                    mn as int <= z as int <= if mn <= mx {
                        mx as int + 1
                    } else {
                        mn as int
                    },
                    zooms@.len() == z as int - mn as int,
                    forall|k: int| 0 <= k < zooms@.len() ==> #[trigger] zooms@[k] as int == mn as int
                        + k,
                decreases mx as int + 1 - z as int,
            {
                zooms.push(z as u8);
                z = z + 1;
            }
            zooms
        }
        None => {
            let mut zooms: Vec<u8> = Vec::new();
            let mut i: usize = 0;
            while i < zoom_levels.len()
                invariant
                    i <= zoom_levels@.len(),
                    zooms@ == zoom_levels@.take(i as int),
                decreases zoom_levels@.len() - i,
            {
                zooms.push(zoom_levels[i]);
                proof {
                    assert(zoom_levels@.take(i + 1 as int) =~= zoom_levels@.take(
                        i as int).push(zoom_levels@[i as int]));
                }
                i = i + 1;
            }
            proof {
                assert(zoom_levels@.take(zoom_levels@.len() as int) =~= zoom_levels@);
            }
            zooms
        }
    }
}

/// The rectangle covering the whole pyramid level: the implicit whole-world
/// bounding box maps onto it at every zoom.
pub fn world_rect(zoom: u8) -> (r: TileRect)
    requires
        zoom < 32,
    ensures
        r.valid(),
        r.zoom == zoom,
        r.min_x == 0,
        r.min_y == 0,
        r.max_x as nat == pow2(zoom as nat) - 1,
        r.max_y as nat == pow2(zoom as nat) - 1,
{
    proof {
        lemma_pow2_32_bound(zoom as nat);
        lemma2_to64();
        lemma_u32_shl_is_mul(1u32, zoom as u32);
    }
    let n: u32 = 1u32 << zoom;
    TileRect { zoom, min_x: 0, min_y: 0, max_x: n - 1, max_y: n - 1 }
}

/// Clamp a computed tile index pair to the valid range of the zoom level, as
/// the geographic-to-tile transform requires at the pyramid's edges.
pub fn clamp_to_zoom(x: u32, y: u32, zoom: u8) -> (r: (u32, u32))
    requires
        zoom < 32,
    ensures
        (r.0 as nat) < pow2(zoom as nat),
        (r.1 as nat) < pow2(zoom as nat),
        r.0 as nat == if (x as nat) < pow2(zoom as nat) {
            x as nat
        } else {
            (pow2(zoom as nat) - 1) as nat
        },
        r.1 as nat == if (y as nat) < pow2(zoom as nat) {
            y as nat
        } else {
            (pow2(zoom as nat) - 1) as nat
        },
{
    proof {
        lemma_pow2_32_bound(zoom as nat);
        lemma2_to64();
        lemma_u32_shl_is_mul(1u32, zoom as u32);
    }
    let max_value: u32 = (1u32 << zoom) - 1;
    let cx = if x < max_value {
        x
    } else {
        max_value
    };
    let cy = if y < max_value {
        y
    } else {
        max_value
    };
    (cx, cy)
}

/// The tile a coordinate stands for, as a `(z, x, y)` triple.
pub open spec fn coord_tile(c: TileCoord) -> (int, int, int) {
    (c.z as int, c.x as int, c.y as int)
}

/// The coordinates of one rectangle in row-major order: `x` outermost, `y`
/// innermost.
pub open spec fn rect_coord_at(r: TileRect, k: int) -> TileCoord {
    TileCoord {
        z: r.zoom,
        x: (r.min_x + k / r.spec_height() as int) as u32,
        y: (r.min_y + k % r.spec_height() as int) as u32,
    }
}

pub open spec fn rect_coords(r: TileRect) -> Seq<TileCoord> {
    Seq::new(r.spec_size(), |k: int| rect_coord_at(r, k))
}

/// The full coordinate stream of a rectangle list, rectangle by rectangle.
pub open spec fn coords_of_rects(rs: Seq<TileRect>) -> Seq<TileCoord>
    decreases rs.len(),
{
    if rs.len() == 0 {
        Seq::empty()
    } else {
        coords_of_rects(rs.drop_last()) + rect_coords(rs.last())
    }
}

/// The enumeration is as long as the rectangles' combined size.
pub proof fn lemma_coords_len(rs: Seq<TileRect>)
    ensures
        coords_of_rects(rs).len() == total_size(rs),
    decreases rs.len(),
{
    if rs.len() > 0 {
        lemma_coords_len(rs.drop_last());
    }
}

/// Given a list of tile ranges, produce every tile coordinate in the ranges,
/// row-major within each rectangle.
pub fn iterate_tiles(tiles: Vec<TileRect>) -> (coords: Vec<TileCoord>)
    requires
        all_valid(tiles@),
    ensures
        coords@ == coords_of_rects(tiles@),
{
    let mut coords: Vec<TileCoord> = Vec::new();
    proof {
        assert(coords@ =~= coords_of_rects(tiles@.take(0)));
    }
    let mut i: usize = 0;
    while i < tiles.len()
        invariant
            i <= tiles@.len(),
            all_valid(tiles@),
            coords@ == coords_of_rects(tiles@.take(i as int)),
        decreases tiles@.len() - i,
    {
        let t = tiles[i];
        proof {
            assert(t.valid());
            lemma_pow2_32_bound(t.zoom as nat);
        }
        let ghost base = coords@;
        let ghost h = t.spec_height() as int;
        let mut x: u32 = t.min_x;
        while x <= t.max_x
            invariant
                t.valid(),
                t.max_x < 0x8000_0000u32,
                t.max_y < 0x8000_0000u32,
                t.min_x <= x,
                x as int <= t.max_x as int + 1,
                h == t.spec_height() as int,
                coords@ == base + rect_coords(t).take((x as int - t.min_x as int) * h),
            decreases t.max_x as int + 1 - x as int,
        {
            let ghost dx = x as int - t.min_x as int;
            let mut y: u32 = t.min_y;
            proof {
                assert(dx * h + 0 == dx * h);
            }
            while y <= t.max_y
                invariant
                    t.valid(),
                    t.max_x < 0x8000_0000u32,
                    t.max_y < 0x8000_0000u32,
                    t.min_x <= x <= t.max_x,
                    t.min_y <= y,
                    y as int <= t.max_y as int + 1,
                    h == t.spec_height() as int,
                    dx == x as int - t.min_x as int,
                    coords@ == base + rect_coords(t).take(dx * h + (y as int - t.min_y as int)),
                decreases t.max_y as int + 1 - y as int,
            {
                proof {
                    let dy = y as int - t.min_y as int;
                    let idx = dx * h + dy;
                    assert(idx < t.spec_size() && 0 <= idx) by (nonlinear_arith)
                        requires
                            idx == dx * h + dy,
                            0 <= dx <= t.spec_width() - 1,
                            0 <= dy <= h - 1,
                            1 <= h,
                            h == t.spec_height(),
                            t.spec_size() == t.spec_width() * t.spec_height(),
                    ;
                    lemma_fundamental_div_mod_converse(idx, h, dx, dy);
                    assert(rect_coords(t)[idx] == TileCoord { z: t.zoom, x, y });
                    assert(rect_coords(t).take(idx + 1) =~= rect_coords(t).take(idx).push(
                        rect_coords(t)[idx]));
                }
                coords.push(TileCoord { z: t.zoom, x, y });
                y = y + 1;
            }
            proof {
                assert(dx * h + h == (dx + 1) * h) by (nonlinear_arith);
            }
            x = x + 1;
        }
        proof {
            assert((x as int - t.min_x as int) * h == t.spec_size()) by (nonlinear_arith)
                requires
                    x as int - t.min_x as int == t.spec_width() as int,
                    h == t.spec_height() as int,
                    t.spec_size() == t.spec_width() * t.spec_height(),
            ;
            assert(rect_coords(t).take(t.spec_size() as int) =~= rect_coords(t));
            assert(tiles@.take(i + 1 as int).drop_last() =~= tiles@.take(i as int));
            assert(tiles@.take(i + 1 as int).last() == t);
        }
        i = i + 1;
    }
    proof {
        assert(tiles@.take(tiles@.len() as int) =~= tiles@);
    }
    coords
}

/// One rectangle's coordinate stream lists each of its tiles exactly once.
proof fn lemma_rect_coords_exact(r: TileRect)
    requires
        r.valid(),
    ensures
        forall|k: int| 0 <= k < rect_coords(r).len() ==> r.tiles().contains(
            coord_tile(#[trigger] rect_coords(r)[k])),
        forall|t: (int, int, int)| r.tiles().contains(t) ==> exists|k: int|
            0 <= k < rect_coords(r).len() && coord_tile(rect_coords(r)[k]) == t,
        forall|k1: int, k2: int| 0 <= k1 < k2 < rect_coords(r).len() ==> rect_coords(r)[k1]
            != rect_coords(r)[k2],
{
    lemma_pow2_32_bound(r.zoom as nat);
    let w = r.spec_width() as int;
    let h = r.spec_height() as int;
    assert forall|k: int| 0 <= k < rect_coords(r).len() implies r.tiles().contains(
        coord_tile(#[trigger] rect_coords(r)[k])) by {
        lemma_div_mod_in_range(k, w, h);
        assert(rect_coord_at(r, k).x as int == r.min_x + k / h);
        assert(rect_coord_at(r, k).y as int == r.min_y + k % h);
    }
    assert forall|t: (int, int, int)| r.tiles().contains(t) implies exists|k: int|
        0 <= k < rect_coords(r).len() && coord_tile(rect_coords(r)[k]) == t by {
        let dx = t.1 - r.min_x;
        let dy = t.2 - r.min_y;
        let k = dx * h + dy;
        assert(0 <= k < w * h) by (nonlinear_arith)
            requires
                k == dx * h + dy,
                0 <= dx <= w - 1,
                0 <= dy <= h - 1,
                1 <= h,
                1 <= w,
        ;
        lemma_fundamental_div_mod_converse(k, h, dx, dy);
        assert(coord_tile(rect_coords(r)[k]) == t);
    }
    assert forall|k1: int, k2: int| 0 <= k1 < k2 < rect_coords(r).len() implies rect_coords(
        r)[k1] != rect_coords(r)[k2] by {
        lemma_div_mod_in_range(k1, w, h);
        lemma_div_mod_in_range(k2, w, h);
        if rect_coords(r)[k1] == rect_coords(r)[k2] {
            assert(k1 / h == k2 / h && k1 % h == k2 % h);
            vstd::arithmetic::div_mod::lemma_fundamental_div_mod(k1, h);
            vstd::arithmetic::div_mod::lemma_fundamental_div_mod(k2, h);
        }
    }
}

/// Division and remainder of an in-range index stay within the rectangle.
proof fn lemma_div_mod_in_range(k: int, w: int, h: int)
    requires
        1 <= w,
        1 <= h,
        0 <= k < w * h,
    ensures
        0 <= k / h < w,
        0 <= k % h < h,
{
    vstd::arithmetic::div_mod::lemma_fundamental_div_mod(k, h);
    vstd::arithmetic::div_mod::lemma_mod_bound(k, h);
    vstd::arithmetic::div_mod::lemma_div_pos_is_pos(k, h);
    assert(k / h < w) by (nonlinear_arith)
        requires
            k == h * (k / h) + k % h,
            0 <= k % h < h,
            0 <= k < w * h,
            0 <= k / h,
            1 <= h,
    ;
}

/// Law: enumerating a well-formed, pairwise-disjoint rectangle list yields
/// each covered tile exactly once — no duplicates and no omissions — so no
/// tile is double-counted or double-written however the input boxes
/// overlapped.
pub proof fn lemma_enumeration_exact(rs: Seq<TileRect>)
    requires
        all_valid(rs),
        pairwise_disjoint(rs),
    ensures
        coords_of_rects(rs).len() == total_size(rs),
        forall|a: int, b: int| 0 <= a < b < coords_of_rects(rs).len() ==> coords_of_rects(rs)[a]
            != coords_of_rects(rs)[b],
        forall|a: int| 0 <= a < coords_of_rects(rs).len() ==> coverage(rs).contains(
            coord_tile(#[trigger] coords_of_rects(rs)[a])),
        forall|t: (int, int, int)| coverage(rs).contains(t) ==> exists|a: int|
            0 <= a < coords_of_rects(rs).len() && coord_tile(coords_of_rects(rs)[a]) == t,
    decreases rs.len(),
{
    lemma_coords_len(rs);
    if rs.len() == 0 {
        assert forall|t: (int, int, int)| coverage(rs).contains(t) implies exists|a: int|
            0 <= a < coords_of_rects(rs).len() && coord_tile(coords_of_rects(rs)[a]) == t by {
            let i = choose|i: int| 0 <= i < rs.len() && #[trigger] rs[i].tiles().contains(t);
        }
    } else {
        let pre = rs.drop_last();
        let last = rs.last();
        let cs = coords_of_rects(rs);
        let cpre = coords_of_rects(pre);
        let clast = rect_coords(last);
        assert(all_valid(pre) && pairwise_disjoint(pre)) by {
            assert(forall|k: int| 0 <= k < pre.len() ==> pre[k] == rs[k]);
        }
        lemma_enumeration_exact(pre);
        lemma_rect_coords_exact(last);
        assert(last.valid());
        // a coordinate of the prefix and one of the last rectangle never
        // stand for the same tile
        assert forall|a: int, b: int| 0 <= a < cpre.len() && 0 <= b < clast.len() implies
            cpre[a] != clast[b] by {
            if cpre[a] == clast[b] {
                let t = coord_tile(clast[b]);
                assert(coverage(pre).contains(coord_tile(cpre[a])));
                let i = choose|i: int| 0 <= i < pre.len() && #[trigger] pre[i].tiles().contains(t);
                assert(rs[i].tiles().contains(t));
                assert(rects_disjoint(rs[i], rs[rs.len() - 1]));
                assert(last.tiles().contains(t));
            }
        }
        assert forall|a: int, b: int| 0 <= a < b < cs.len() implies cs[a] != cs[b] by {
            if b < cpre.len() {
                assert(cs[a] == cpre[a] && cs[b] == cpre[b]);
            } else if a >= cpre.len() {
                assert(cs[a] == clast[a - cpre.len()] && cs[b] == clast[b - cpre.len()]);
            } else {
                assert(cs[a] == cpre[a] && cs[b] == clast[b - cpre.len()]);
            }
        }
        assert forall|a: int| 0 <= a < cs.len() implies coverage(rs).contains(
            coord_tile(#[trigger] cs[a])) by {
            if a < cpre.len() {
                assert(cs[a] == cpre[a]);
                let t = coord_tile(cpre[a]);
                let i = choose|i: int| 0 <= i < pre.len() && #[trigger] pre[i].tiles().contains(t);
                assert(rs[i].tiles().contains(t));
            } else {
                assert(cs[a] == clast[a - cpre.len()]);
                assert(last.tiles().contains(coord_tile(cs[a])));
                assert(rs[rs.len() - 1].tiles().contains(coord_tile(cs[a])));
            }
        }
        assert forall|t: (int, int, int)| coverage(rs).contains(t) implies exists|a: int|
            0 <= a < cs.len() && coord_tile(cs[a]) == t by {
            let i = choose|i: int| 0 <= i < rs.len() && #[trigger] rs[i].tiles().contains(t);
            if i < rs.len() - 1 {
                assert(pre[i].tiles().contains(t));
                assert(coverage(pre).contains(t));
                let a = choose|a: int| 0 <= a < cpre.len() && coord_tile(cpre[a]) == t;
                assert(cs[a] == cpre[a]);
                assert(coord_tile(cs[a]) == t);
            } else {
                let k = choose|k: int| 0 <= k < clast.len() && coord_tile(clast[k]) == t;
                assert(cs[cpre.len() + k] == clast[k]);
                assert(coord_tile(cs[cpre.len() + k]) == t);
            }
        }
    }
}

} // verus!
