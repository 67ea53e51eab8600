//! The render pipeline: one diagram, one display mode and the raw site
//! list become an ordered sequence of draw commands. A pure function of
//! its inputs, so the command sequence is deterministic.

use vstd::prelude::*;

use crate::diagram::spec_color_for;
use crate::diagram::color_for;
use crate::diagram::Diagram;
use crate::geom::Color;
use crate::geom::Site;
use crate::geom::COLOR_MAX;

verus! {

/// Outline-only (wireframe) versus filled-polygon display.
#[derive(Clone, Copy, PartialEq, Eq, Structural, Debug)]
pub enum DisplayMode {
    OutlineOnly,
    Filled,
}

impl DisplayMode {
    /// The other mode.
    pub open spec fn spec_toggled(self) -> DisplayMode {
        match self {
            DisplayMode::OutlineOnly => DisplayMode::Filled,
            DisplayMode::Filled => DisplayMode::OutlineOnly,
        }
    }

    pub fn toggled(self) -> (m: DisplayMode)
        ensures
            m == self.spec_toggled(),
    {
        match self {
            DisplayMode::OutlineOnly => DisplayMode::Filled,
            DisplayMode::Filled => DisplayMode::OutlineOnly,
        }
    }
}

/// Law: toggling the display mode twice is no net change.
pub proof fn lemma_toggle_twice(m: DisplayMode)
    ensures
        m.spec_toggled().spec_toggled() == m,
{
}

/// Outline width, in micro-units (two canvas units).
pub const OUTLINE_WIDTH: i64 = 2_000_000;

/// Site marker radius, in micro-units (four canvas units).
pub const MARKER_RADIUS: i64 = 4_000_000;

/// One drawing primitive; coordinates and sizes in micro-units.
#[derive(Clone, PartialEq, Debug)]
pub enum DrawCmd {
    /// Clear the whole canvas to a color.
    Clear { color: Color },
    /// An open polyline connecting consecutive points.
    Polyline { color: Color, width: i64, points: Vec<Site> },
    /// A filled polygon.
    FillPolygon { color: Color, points: Vec<Site> },
    /// A filled circle.
    FillCircle { color: Color, center: Site, radius: i64 },
}

/// The mathematical shape of one draw command.
pub enum CmdView {
    Clear { color: Color },
    Polyline { color: Color, width: int, points: Seq<Site> },
    FillPolygon { color: Color, points: Seq<Site> },
    FillCircle { color: Color, center: Site, radius: int },
}

impl View for DrawCmd {
    type V = CmdView;

    open spec fn view(&self) -> CmdView {
        match self {
            DrawCmd::Clear { color } => CmdView::Clear { color: *color },
            DrawCmd::Polyline { color, width, points } => CmdView::Polyline {
                color: *color,
                width: *width as int,
                points: points@,
            },
            DrawCmd::FillPolygon { color, points } => CmdView::FillPolygon {
                color: *color,
                points: points@,
            },
            DrawCmd::FillCircle { color, center, radius } => CmdView::FillCircle {
                color: *color,
                center: *center,
                radius: *radius as int,
            },
        }
    }
}

/// The views of a command vector, in order.
pub open spec fn cmds_view(v: Seq<DrawCmd>) -> Seq<CmdView> {
    v.map(|i: int, c: DrawCmd| c@)
}

pub open spec fn white() -> Color {
    Color { r: COLOR_MAX, g: COLOR_MAX, b: COLOR_MAX, a: COLOR_MAX }
}

pub open spec fn blue() -> Color {
    Color { r: 0, g: 0, b: COLOR_MAX, a: COLOR_MAX }
}

pub open spec fn black() -> Color {
    Color { r: 0, g: 0, b: 0, a: COLOR_MAX }
}

/// The corner coordinates of cell `i`, in cell order.
pub open spec fn cell_points(d: Diagram, i: int) -> Seq<Site> {
    d.cells@[i]@.map(|k: int, idx: usize| d.vertices@[idx as int])
}

/// The command one cell contributes: nothing for a degenerate cell of
/// fewer than three corners; otherwise an open blue polyline in outline
/// mode, or a polygon filled with the color paired to the cell's index.
pub open spec fn cell_cmd(d: Diagram, colors: Seq<Color>, mode: DisplayMode, i: int) -> Option<
    CmdView,
> {
    let pts = cell_points(d, i);
    if pts.len() < 3 {
        None
    } else if mode is OutlineOnly {
        Some(CmdView::Polyline { color: blue(), width: OUTLINE_WIDTH as int, points: pts })
    } else {
        Some(CmdView::FillPolygon { color: spec_color_for(colors, i), points: pts })
    }
}

/// The commands of the first `n` cells, in cell order.
pub open spec fn cell_cmds(d: Diagram, colors: Seq<Color>, mode: DisplayMode, n: int) -> Seq<
    CmdView,
>
    decreases n,
{
    if n <= 0 {
        Seq::empty()
    } else {
        cell_cmds(d, colors, mode, n - 1) + match cell_cmd(d, colors, mode, n - 1) {
            Some(c) => seq![c],
            None => Seq::empty(),
        }
    }
}

/// One black marker per site, in site order, after all cell geometry.
pub open spec fn marker_cmds(sites: Seq<Site>) -> Seq<CmdView> {
    sites.map(
        |i: int, s: Site| CmdView::FillCircle {
            color: black(),
            center: s,
            radius: MARKER_RADIUS as int,
        },
    )
}

/// The whole frame: clear to white, then every cell, then every marker.
pub open spec fn spec_render(
    d: Diagram,
    mode: DisplayMode,
    sites: Seq<Site>,
    colors: Seq<Color>,
) -> Seq<CmdView> {
    seq![CmdView::Clear { color: white() }] + cell_cmds(d, colors, mode, d.cells@.len() as int)
        + marker_cmds(sites)
}

/// Law: the draw-command sequence is a function of the diagram, the
/// display mode and the site and color arrays alone — two renders of
/// identical inputs are identical, command for command.
pub proof fn lemma_render_deterministic(
    r1: Seq<CmdView>,
    r2: Seq<CmdView>,
    d: Diagram,
    mode: DisplayMode,
    sites: Seq<Site>,
    colors: Seq<Color>,
)
    requires
        r1 == spec_render(d, mode, sites, colors),
        r2 == spec_render(d, mode, sites, colors),
    ensures
        r1 == r2,
{
}

/// Emits the frame's draw commands, exactly as `spec_render` lays them
/// out. A cell index beyond the color count falls back to a synthesized
/// color; it never fails.
pub fn render(d: &Diagram, mode: DisplayMode, sites: &Vec<Site>, colors: &Vec<Color>) -> (r: Vec<
    DrawCmd,
>)
    requires
        d.wf(),
    ensures
        cmds_view(r@) == spec_render(*d, mode, sites@, colors@),
{
    let mut out: Vec<DrawCmd> = Vec::new();
    out.push(DrawCmd::Clear { color: Color { r: COLOR_MAX, g: COLOR_MAX, b: COLOR_MAX, a: COLOR_MAX } });
    proof {
        assert(cmds_view(out@) =~= seq![CmdView::Clear { color: white() }]);
    }
    let ncells = d.cells.len();
    let mut i: usize = 0;
    while i < ncells
        invariant
            d.wf(),
            ncells == d.cells@.len(),
            0 <= i <= ncells,
            cmds_view(out@) == seq![CmdView::Clear { color: white() }]
                + cell_cmds(*d, colors@, mode, i as int),
        decreases ncells - i,
    {
        let cell = &d.cells[i];
        let clen = cell.len();
        let mut pts: Vec<Site> = Vec::new();
        let mut k: usize = 0;
        while k < clen
            invariant
                d.wf(),
                0 <= i < d.cells@.len(),
                clen == cell@.len(),
                cell@ == d.cells@[i as int]@,
                0 <= k <= clen,
                pts@.len() == k,
                forall|t: int| 0 <= t < k ==> pts@[t] == cell_points(*d, i as int)[t],
            decreases clen - k,
        {
            let idx = cell[k];
            pts.push(d.vertices[idx]);
            k += 1;
        }
        proof {
            assert(pts@ =~= cell_points(*d, i as int));
        }
        let ghost prev = cmds_view(out@);
        if pts.len() >= 3 {
            match mode {
                DisplayMode::OutlineOnly => {
                    out.push(
                        DrawCmd::Polyline {
                            color: Color { r: 0, g: 0, b: COLOR_MAX, a: COLOR_MAX },
                            width: OUTLINE_WIDTH,
                            points: pts,
                        },
                    );
                },
                DisplayMode::Filled => {
                    let c = color_for(colors, i);
                    out.push(DrawCmd::FillPolygon { color: c, points: pts });
                },
            }
            proof {
                assert(cmds_view(out@) =~= prev + seq![
                    cell_cmd(*d, colors@, mode, i as int).unwrap(),
                ]);
            }
        }
        proof {
            assert(cmds_view(out@) =~= seq![CmdView::Clear { color: white() }]
                + cell_cmds(*d, colors@, mode, i + 1));
        }
        i += 1;
    }
    let nsites = sites.len();
    let mut t: usize = 0;
    while t < nsites
        invariant
            nsites == sites@.len(),
            0 <= t <= nsites,
            cmds_view(out@) == seq![CmdView::Clear { color: white() }]
                + cell_cmds(*d, colors@, mode, d.cells@.len() as int)
                + marker_cmds(sites@.subrange(0, t as int)),
        decreases nsites - t,
    {
        let ghost prev = cmds_view(out@);
        out.push(
            DrawCmd::FillCircle {
                color: Color { r: 0, g: 0, b: 0, a: COLOR_MAX },
                center: sites[t],
                radius: MARKER_RADIUS,
            },
        );
        proof {
            let marker = CmdView::FillCircle {
                color: black(),
                center: sites@[t as int],
                radius: MARKER_RADIUS as int,
            };
            assert(cmds_view(out@) =~= prev.push(marker));
            assert(sites@.subrange(0, t + 1) =~= sites@.subrange(0, t as int).push(
                sites@[t as int],
            ));
            assert(marker_cmds(sites@.subrange(0, t + 1)) =~= marker_cmds(
                sites@.subrange(0, t as int),
            ).push(marker));
            assert(cmds_view(out@) =~= seq![CmdView::Clear { color: white() }]
                + cell_cmds(*d, colors@, mode, d.cells@.len() as int)
                + marker_cmds(sites@.subrange(0, t + 1)));
        }
        t += 1;
    }
    proof {
        assert(sites@.subrange(0, sites@.len() as int) =~= sites@);
        assert(cmds_view(out@) =~= spec_render(*d, mode, sites@, colors@));
    }
    out
}

} // verus!
