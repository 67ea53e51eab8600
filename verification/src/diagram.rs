//! Normalized output of the planar-subdivision collaborator.

use vstd::prelude::*;

use crate::geom::Color;
use crate::geom::Site;
use crate::geom::COLOR_MAX;
use crate::geom::MAX_COORD;

verus! {

/// Ephemeral cell geometry, rebuilt every frame: a vertex pool and, per
/// cell, the vertex indices bounding one site's region.
pub struct Diagram {
    pub vertices: Vec<Site>,
    pub cells: Vec<Vec<usize>>,
}

impl Diagram {
    /// Every cell index points into the vertex pool.
    pub open spec fn wf(self) -> bool {
        forall|i: int, k: int|
            0 <= i < self.cells@.len() && 0 <= k < self.cells@[i]@.len()
                ==> #[trigger] self.cells@[i]@[k] < self.vertices@.len()
    }

    /// The diagram of zero sites: no vertices, no cells.
    pub fn empty() -> (d: Diagram)
        ensures
            d.wf(),
            d.vertices@.len() == 0,
            d.cells@.len() == 0,
    {
        Diagram { vertices: Vec::new(), cells: Vec::new() }
    }
}

/// Every index of every region points into a pool of `n` vertices.
pub open spec fn regions_ok(regions: Seq<Vec<usize>>, n: int) -> bool {
    forall|i: int, k: int|
        0 <= i < regions.len() && 0 <= k < regions[i]@.len() ==> #[trigger] regions[i]@[k] < n
}

/// Normalizes what the subdivision collaborator returned: accepts the
/// vertex pool and regions as they stand iff every index is in range,
/// and refuses them otherwise instead of letting a bad index propagate.
pub fn assemble(vertices: Vec<Site>, regions: Vec<Vec<usize>>) -> (r: Option<Diagram>)
    ensures
        match r {
            Some(d) => regions_ok(regions@, vertices@.len() as int) && d.wf()
                && d.vertices@ == vertices@ && d.cells@ == regions@,
            None => !regions_ok(regions@, vertices@.len() as int),
        },
{
    let n = vertices.len();
    let m = regions.len();
    let mut i: usize = 0;
    while i < m
        invariant
            n == vertices@.len(),
            m == regions@.len(),
            0 <= i <= m,
            forall|t: int, k: int|
                0 <= t < i && 0 <= k < regions@[t]@.len() ==> #[trigger] regions@[t]@[k] < n,
        decreases m - i,
    {
        let cell = &regions[i];
        let len = cell.len();
        let mut k: usize = 0;
        while k < len
            invariant
                n == vertices@.len(),
                m == regions@.len(),
                0 <= i < m,
                len == regions@[i as int]@.len(),
                cell@ == regions@[i as int]@,
                0 <= k <= len,
                forall|t: int| 0 <= t < k ==> #[trigger] regions@[i as int]@[t] < n,
            decreases len - k,
        {
            if cell[k] >= n {
                return None;
            }
            k += 1;
        }
        i += 1;
    }
    Some(Diagram { vertices, cells: regions })
}

/// What the subdivision collaborator is to be invoked with: the canvas
/// center and a bounding radius that safely encloses the canvas.
pub struct BuildRequest {
    pub center_x: i64,
    pub center_y: i64,
    pub radius: i64,
}

/// Plans one diagram rebuild for `n_sites` sites on a `width x height`
/// canvas (micro-units). Zero sites yield no request: the collaborator
/// must not be invoked on an empty input, and the diagram stays empty.
/// Otherwise the request centers on the canvas with a radius whose
/// square is at least twice the square of either canvas extent, i.e.
/// at least `sqrt(2)` times the larger extent.
pub fn build_request(width: i64, height: i64, n_sites: usize) -> (r: Option<BuildRequest>)
    requires
        0 < width <= MAX_COORD,
        0 < height <= MAX_COORD,
    ensures
        r is Some <==> n_sites > 0,
        match r {
            Some(b) => b.center_x == width / 2 && b.center_y == height / 2
                && b.radius * b.radius >= 2 * width * width
                && b.radius * b.radius >= 2 * height * height,
            None => true,
        },
{
    if n_sites == 0 {
        return None;
    }
    let m: i64 = if width >= height {
        width
    } else {
        height
    };
    let radius: i64 = m + m / 2 + 1;
    proof {
        let mi = m as int;
        let h = mi / 2;
        assert((mi + h + 1) * (mi + h + 1) >= 2 * mi * mi) by (nonlinear_arith)
            requires
                mi >= 1,
                2 * h <= mi,
                mi <= 2 * h + 1,
        ;
        assert(2 * width * width <= 2 * mi * mi && 2 * height * height <= 2 * mi * mi)
            by (nonlinear_arith)
            requires
                0 < width <= mi,
                0 < height <= mi,
        ;
    }
    Some(BuildRequest { center_x: width / 2, center_y: height / 2, radius })
}

/// A fixed mid-gray, synthesized where a cell has no paired color.
pub open spec fn fallback_color() -> Color {
    Color { r: 500_000, g: 500_000, b: 500_000, a: COLOR_MAX }
}

/// The color paired with cell `i`: the stored one where the index is in
/// range, the synthesized fallback where the cell count has drifted past
/// the color count. Never fails.
pub fn color_for(colors: &Vec<Color>, i: usize) -> (c: Color)
    ensures
        c == spec_color_for(colors@, i as int),
{
    if i < colors.len() {
        colors[i]
    } else {
        Color { r: 500_000, g: 500_000, b: 500_000, a: COLOR_MAX }
    }
}

/// Specification of `color_for`.
pub open spec fn spec_color_for(colors: Seq<Color>, i: int) -> Color {
    if 0 <= i < colors.len() {
        colors[i]
    } else {
        fallback_color()
    }
}

} // verus!
