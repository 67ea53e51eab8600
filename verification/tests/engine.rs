use interactive_voronoi::controller::Controller;
use interactive_voronoi::controller::InputEvent;
use interactive_voronoi::controller::Key;
use interactive_voronoi::diagram::assemble;
use interactive_voronoi::diagram::build_request;
use interactive_voronoi::diagram::color_for;
use interactive_voronoi::diagram::Diagram;
use interactive_voronoi::geom::Color;
use interactive_voronoi::geom::Site;
use interactive_voronoi::render::render;
use interactive_voronoi::render::DisplayMode;
use interactive_voronoi::render::DrawCmd;
use interactive_voronoi::store::PointStore;

const W: i64 = 1_280_000_000;
const H: i64 = 720_000_000;

fn site(x: i64, y: i64) -> Site {
    Site { x, y }
}

#[test]
fn insert_rejects_near_duplicate() {
    // sites (10,10), (10,10.0005), (500,500) in micro-units
    let mut store = PointStore::new();
    assert!(store.insert(site(10_000_000, 10_000_000)));
    assert!(!store.insert(site(10_000_000, 10_000_500)));
    assert!(store.insert(site(500_000_000, 500_000_000)));
    assert_eq!(store.sites.len(), 2);
    assert_eq!(store.colors.len(), 2);
}

#[test]
fn insert_rejects_exact_duplicate() {
    let mut store = PointStore::new();
    assert!(store.insert(site(7_000_000, 9_000_000)));
    assert!(!store.insert(site(7_000_000, 9_000_000)));
    assert_eq!(store.sites.len(), 1);
}

#[test]
fn insert_accepts_epsilon_in_one_axis_only() {
    // near in x but far in y: the box test needs both axes
    let mut store = PointStore::new();
    assert!(store.insert(site(10_000_000, 10_000_000)));
    assert!(store.insert(site(10_000_000, 20_000_000)));
    assert_eq!(store.sites.len(), 2);
}

#[test]
fn counts_stay_paired_after_every_operation() {
    let mut store = PointStore::new();
    store.insert(site(1_000_000, 2_000_000));
    store.insert(site(50_000_000, 60_000_000));
    assert_eq!(store.sites.len(), store.colors.len());
    store.recolor();
    assert_eq!(store.sites.len(), store.colors.len());
    store.fill_random(7, W, H);
    assert_eq!(store.sites.len(), store.colors.len());
    store.clear();
    assert_eq!(store.sites.len(), 0);
    assert_eq!(store.colors.len(), 0);
}

#[test]
fn fill_random_replaces_contents() {
    let mut store = PointStore::new();
    store.insert(site(1_000_000, 1_000_000));
    store.fill_random(5, W, H);
    assert_eq!(store.sites.len(), 5);
    assert_eq!(store.colors.len(), 5);
    for s in &store.sites {
        assert!(0 <= s.x && s.x < W);
        assert!(0 <= s.y && s.y < H);
    }
}

#[test]
fn recolor_preserves_sites() {
    let mut store = PointStore::new();
    store.insert(site(3_000_000, 4_000_000));
    store.insert(site(90_000_000, 80_000_000));
    let before = store.sites.clone();
    store.recolor();
    assert_eq!(store.sites, before);
    assert_eq!(store.colors.len(), 2);
    for c in &store.colors {
        assert!(c.r <= 1_000_000 && c.g <= 1_000_000 && c.b <= 1_000_000);
        assert_eq!(c.a, 1_000_000);
    }
}

#[test]
fn zero_sites_need_no_rebuild_and_give_empty_diagram() {
    assert!(build_request(W, H, 0).is_none());
    let d = Diagram::empty();
    assert_eq!(d.cells.len(), 0);
    assert_eq!(d.vertices.len(), 0);
}

#[test]
fn build_request_encloses_canvas() {
    let b = build_request(W, H, 3).unwrap();
    assert_eq!(b.center_x, W / 2);
    assert_eq!(b.center_y, H / 2);
    // radius^2 is at least twice the square of either extent
    let r = b.radius as i128;
    assert!(r * r >= 2 * (W as i128) * (W as i128));
    assert!(r * r >= 2 * (H as i128) * (H as i128));
}

#[test]
fn assemble_accepts_valid_regions_and_refuses_bad_indices() {
    let vertices = vec![site(0, 0), site(1_000_000, 0), site(0, 1_000_000)];
    let regions = vec![vec![0usize, 1, 2]];
    let d = assemble(vertices.clone(), regions).unwrap();
    assert_eq!(d.vertices, vertices);
    assert_eq!(d.cells, vec![vec![0usize, 1, 2]]);
    assert!(assemble(vertices, vec![vec![0usize, 3]]).is_none());
}

#[test]
fn out_of_range_color_index_falls_back() {
    let colors = vec![Color { r: 1, g: 2, b: 3, a: 1_000_000 }];
    assert_eq!(color_for(&colors, 0), Color { r: 1, g: 2, b: 3, a: 1_000_000 });
    let fb = color_for(&colors, 1);
    assert_eq!(fb, Color { r: 500_000, g: 500_000, b: 500_000, a: 1_000_000 });
}

fn triangle_diagram() -> Diagram {
    Diagram {
        vertices: vec![site(0, 0), site(10_000_000, 0), site(0, 10_000_000), site(9, 9)],
        cells: vec![vec![0, 1, 2], vec![3]],
    }
}

#[test]
fn render_is_deterministic() {
    let d = triangle_diagram();
    let sites = vec![site(2_000_000, 2_000_000)];
    let colors = vec![Color { r: 9, g: 8, b: 7, a: 1_000_000 }];
    let a = render(&d, DisplayMode::Filled, &sites, &colors);
    let b = render(&d, DisplayMode::Filled, &sites, &colors);
    assert_eq!(a, b);
}

#[test]
fn render_filled_layout_and_fallback() {
    let d = triangle_diagram();
    let sites = vec![site(2_000_000, 2_000_000), site(8_000_000, 1_000_000)];
    let colors: Vec<Color> = vec![];
    let cmds = render(&d, DisplayMode::Filled, &sites, &colors);
    // clear, one polygon (the one-vertex cell is skipped), two markers
    assert_eq!(cmds.len(), 4);
    match &cmds[0] {
        DrawCmd::Clear { color } => {
            assert_eq!(*color, Color { r: 1_000_000, g: 1_000_000, b: 1_000_000, a: 1_000_000 })
        },
        other => panic!("expected clear, got {:?}", other),
    }
    match &cmds[1] {
        DrawCmd::FillPolygon { color, points } => {
            // no color is paired with the cell: the fallback is synthesized
            assert_eq!(*color, Color { r: 500_000, g: 500_000, b: 500_000, a: 1_000_000 });
            assert_eq!(points.len(), 3);
            assert_eq!(points[0], site(0, 0));
        },
        other => panic!("expected polygon, got {:?}", other),
    }
    match &cmds[2] {
        DrawCmd::FillCircle { color, center, radius } => {
            assert_eq!(*color, Color { r: 0, g: 0, b: 0, a: 1_000_000 });
            assert_eq!(*center, site(2_000_000, 2_000_000));
            assert_eq!(*radius, 4_000_000);
        },
        other => panic!("expected circle, got {:?}", other),
    }
}

#[test]
fn render_outline_emits_open_blue_polyline() {
    let d = triangle_diagram();
    let sites: Vec<Site> = vec![];
    let colors: Vec<Color> = vec![];
    let cmds = render(&d, DisplayMode::OutlineOnly, &sites, &colors);
    assert_eq!(cmds.len(), 2);
    match &cmds[1] {
        DrawCmd::Polyline { color, width, points } => {
            assert_eq!(*color, Color { r: 0, g: 0, b: 1_000_000, a: 1_000_000 });
            assert_eq!(*width, 2_000_000);
            // the polyline is open: the vertex list is not closed back
            assert_eq!(points.len(), 3);
        },
        other => panic!("expected polyline, got {:?}", other),
    }
}

#[test]
fn toggle_twice_is_no_net_change() {
    let mut ctl = Controller::new(false, 50, W, H);
    let mut store = PointStore::new();
    let initial = ctl.mode;
    ctl.handle_event(&mut store, InputEvent::KeyRelease(Key::L));
    assert_ne!(ctl.mode, initial);
    ctl.handle_event(&mut store, InputEvent::KeyRelease(Key::L));
    assert_eq!(ctl.mode, initial);
}

#[test]
fn controller_keys_drive_the_store() {
    let mut ctl = Controller::new(true, 4, W, H);
    assert_eq!(ctl.mode, DisplayMode::OutlineOnly);
    let mut store = PointStore::new();
    assert!(ctl.handle_event(&mut store, InputEvent::KeyRelease(Key::R)).is_none());
    assert_eq!(store.sites.len(), 4);
    assert!(ctl.handle_event(&mut store, InputEvent::KeyRelease(Key::C)).is_none());
    assert_eq!(store.colors.len(), 4);
    assert!(ctl.handle_event(&mut store, InputEvent::KeyRelease(Key::N)).is_none());
    assert_eq!(store.sites.len(), 0);
    assert!(ctl.handle_event(&mut store, InputEvent::KeyRelease(Key::Other)).is_none());
    assert!(ctl.handle_event(&mut store, InputEvent::Other).is_none());
}

#[test]
fn pointer_events_track_and_insert() {
    let mut ctl = Controller::new(false, 50, W, H);
    let mut store = PointStore::new();
    ctl.handle_event(&mut store, InputEvent::PointerMove(40_000_000, 30_000_000));
    assert_eq!(ctl.cursor, site(40_000_000, 30_000_000));
    assert_eq!(store.sites.len(), 0);
    ctl.handle_event(&mut store, InputEvent::PointerRelease);
    assert_eq!(store.sites.len(), 1);
    assert_eq!(store.sites[0], site(40_000_000, 30_000_000));
    // releasing again at the same spot is rejected by the dedup test
    ctl.handle_event(&mut store, InputEvent::PointerRelease);
    assert_eq!(store.sites.len(), 1);
}

#[test]
fn save_key_dumps_current_sites() {
    let mut ctl = Controller::new(false, 50, W, H);
    let mut store = PointStore::new();
    store.insert(site(1_500_000, 2_000_000));
    let out = ctl.handle_event(&mut store, InputEvent::KeyRelease(Key::S));
    assert_eq!(out.unwrap(), b"[[1.500000,2.000000]]".to_vec());
    assert_eq!(store.sites.len(), 1);
}
