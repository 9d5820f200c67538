//! Regression tests for single-workspace layouts, driven through the
//! exhibitor facade.

use frames::defs::{Area, OutputInfo, Position, Size, SurfaceId};
use frames::exhibitor::{CompositorConfig, Exhibitor, Strategist, StrategistConfig};
use frames::frame::{Frame, Geometry, Mode};

fn make_exhibitor(strategist: Strategist) -> Exhibitor {
    let output_info = OutputInfo::new(
        1,
        Area::new(Position::new(0, 0), Size::new(100, 100)),
        Size::new(100, 100),
        60,
        "test_make".to_owned(),
        "test_model".to_owned(),
    );
    let mut exhibitor = Exhibitor::new(strategist, CompositorConfig::default());
    exhibitor.on_output_found(output_info);
    exhibitor
}

fn workspace(e: &Exhibitor) -> &Frame {
    e.get_root().child(0).child(0)
}

fn assert_rect(f: &Frame, x: i64, y: i64, w: u32, h: u32) {
    assert_eq!(f.get_position(), Position::new(x, y));
    assert_eq!(f.get_size(), Size::new(w, h));
}

/// Check exaltation of a frame which can not be exalted more.
///
/// In a buggy implementation there was no limit for exaltation, so the most
/// exalted frame was landing among workspaces.
#[test]
fn test_exaltation_of_the_most_exalted() {
    let mut e = make_exhibitor(Strategist::default());
    e.on_surface_ready(SurfaceId::new(1));
    e.on_surface_ready(SurfaceId::new(2));

    // Exalt the selected frame
    e.exalt();

    // Check the structure was not changed
    let ws = workspace(&e);
    assert_eq!(ws.get_mode(), Mode::Workspace);
    assert_eq!(ws.get_geometry(), Geometry::Stacked);
    assert_eq!(ws.count_children(), 2);
    assert_eq!(ws.child(0).get_sid(), SurfaceId::new(2));
    assert_eq!(ws.child(0).get_geometry(), Geometry::Vertical);
    assert_eq!(ws.child(1).get_sid(), SurfaceId::new(1));
    assert_eq!(ws.child(1).get_geometry(), Geometry::Vertical);
    assert_eq!(e.get_selection().get_sid(), SurfaceId::new(2));
}

/// Check the selection after unmanaging a selected ramified frame.
///
/// A buggy implementation always selected the buildable parent, but in case
/// of removing a frame with no siblings the parent was also removed, so the
/// selection was lost.
#[test]
fn test_selection_after_unmanaging_ramified() {
    let mut e = make_exhibitor(Strategist::default());

    // Make three surfaces
    e.on_surface_ready(SurfaceId::new(1));
    assert!(e.get_selection().get_sid() == SurfaceId::new(1));
    e.on_surface_ready(SurfaceId::new(2));
    assert!(e.get_selection().get_sid() == SurfaceId::new(2));
    e.on_surface_ready(SurfaceId::new(3));
    assert!(e.get_selection().get_sid() == SurfaceId::new(3));

    // Ramify the selected frame
    e.ramify();

    // Check the ramification
    {
        let ws = workspace(&e);
        assert_eq!(ws.count_children(), 3);
        let container = ws.child(0);
        assert_eq!(container.get_mode(), Mode::Container);
        assert_eq!(container.get_geometry(), Geometry::Stacked);
        assert_eq!(container.count_children(), 1);
        assert_eq!(container.child(0).get_sid(), SurfaceId::new(3));
        assert_eq!(container.child(0).get_geometry(), Geometry::Vertical);
        assert_eq!(ws.child(1).get_sid(), SurfaceId::new(2));
        assert_eq!(ws.child(1).get_geometry(), Geometry::Vertical);
        assert_eq!(ws.child(2).get_sid(), SurfaceId::new(1));
        assert_eq!(ws.child(2).get_geometry(), Geometry::Vertical);
    }

    // Destroy the focused ramified frame
    e.on_surface_destroyed(SurfaceId::new(3));

    // Check the selection and the structure
    assert!(e.get_selection().get_sid() == SurfaceId::new(2));
    let ws = workspace(&e);
    assert_eq!(ws.get_mode(), Mode::Workspace);
    assert_eq!(ws.get_geometry(), Geometry::Stacked);
    assert_eq!(ws.count_children(), 2);
    assert_eq!(ws.child(0).get_sid(), SurfaceId::new(2));
    assert_eq!(ws.child(0).get_mode(), Mode::Leaf);
    assert_eq!(ws.child(0).get_geometry(), Geometry::Vertical);
    assert_eq!(ws.child(1).get_sid(), SurfaceId::new(1));
    assert_eq!(ws.child(1).get_mode(), Mode::Leaf);
    assert_eq!(ws.child(1).get_geometry(), Geometry::Vertical);
}

/// Test creating a vertical layout containing two horizontal frames with two
/// surfaces each, then diving one of them.
///
/// A buggy implementation placed ramified and dived surfaces on wrong
/// positions.
#[test]
fn test_create_layout_of_four() {
    let mut config = StrategistConfig::default();
    config.choose_target = "anchored_but_popups".to_owned();
    let strategist = Strategist::new_from_config(config);
    let mut e = make_exhibitor(strategist);

    e.on_surface_ready(SurfaceId::new(1));
    e.on_surface_ready(SurfaceId::new(2));
    e.on_surface_ready(SurfaceId::new(3));
    e.on_surface_ready(SurfaceId::new(4));
    assert!(e.get_selection().get_sid() == SurfaceId::new(4));

    // Create the layout
    e.verticalize();
    e.ramify();
    e.focus_down();
    e.dive_up();
    e.horizontalize();
    e.focus_down();
    e.focus_down();
    e.dive_up();
    e.horizontalize();

    // Check the structure
    assert!(e.get_selection().get_sid() == SurfaceId::new(1));
    {
        let ws = workspace(&e);
        assert_eq!(ws.get_geometry(), Geometry::Vertical);
        assert_rect(ws, 0, 0, 100, 100);
        assert_eq!(ws.count_children(), 2);

        let top = ws.child(0);
        assert_eq!(top.get_mode(), Mode::Container);
        assert_eq!(top.get_geometry(), Geometry::Horizontal);
        assert_rect(top, 0, 0, 100, 50);
        assert_eq!(top.count_children(), 2);
        assert_eq!(top.child(0).get_sid(), SurfaceId::new(3));
        assert_eq!(top.child(0).get_geometry(), Geometry::Stacked);
        assert_rect(top.child(0), 0, 0, 50, 50);
        assert_eq!(top.child(1).get_sid(), SurfaceId::new(4));
        assert_eq!(top.child(1).get_geometry(), Geometry::Stacked);
        assert_rect(top.child(1), 50, 0, 50, 50);

        let bottom = ws.child(1);
        assert_eq!(bottom.get_mode(), Mode::Container);
        assert_eq!(bottom.get_geometry(), Geometry::Horizontal);
        assert_rect(bottom, 0, 50, 100, 50);
        assert_eq!(bottom.count_children(), 2);
        assert_eq!(bottom.child(0).get_sid(), SurfaceId::new(1));
        assert_eq!(bottom.child(0).get_geometry(), Geometry::Stacked);
        assert_rect(bottom.child(0), 0, 0, 50, 50);
        assert_eq!(bottom.child(1).get_sid(), SurfaceId::new(2));
        assert_eq!(bottom.child(1).get_geometry(), Geometry::Stacked);
        assert_rect(bottom.child(1), 50, 0, 50, 50);
    }

    // Alternate the layout
    e.focus_right();
    e.dive_up();

    // Check the structure
    assert!(e.get_selection().get_sid() == SurfaceId::new(2));
    let ws = workspace(&e);
    assert_eq!(ws.get_geometry(), Geometry::Vertical);
    assert_eq!(ws.count_children(), 2);

    let top = ws.child(0);
    assert_eq!(top.get_mode(), Mode::Container);
    assert_eq!(top.get_geometry(), Geometry::Horizontal);
    assert_rect(top, 0, 0, 100, 50);
    assert_eq!(top.count_children(), 2);
    assert_eq!(top.child(0).get_sid(), SurfaceId::new(3));
    assert_eq!(top.child(0).get_geometry(), Geometry::Stacked);
    assert_rect(top.child(0), 0, 0, 50, 50);

    let stack = top.child(1);
    assert_eq!(stack.get_mode(), Mode::Container);
    assert_eq!(stack.get_geometry(), Geometry::Stacked);
    assert_rect(stack, 50, 0, 50, 50);
    assert_eq!(stack.count_children(), 2);
    assert_eq!(stack.child(0).get_sid(), SurfaceId::new(2));
    assert_eq!(stack.child(0).get_geometry(), Geometry::Stacked);
    assert_rect(stack.child(0), 0, 0, 50, 50);
    assert_eq!(stack.child(1).get_sid(), SurfaceId::new(4));
    assert_eq!(stack.child(1).get_geometry(), Geometry::Stacked);
    assert_rect(stack.child(1), 0, 0, 50, 50);

    let bottom = ws.child(1);
    assert_eq!(bottom.get_mode(), Mode::Leaf);
    assert_eq!(bottom.get_sid(), SurfaceId::new(1));
    assert_eq!(bottom.get_geometry(), Geometry::Horizontal);
    assert_rect(bottom, 0, 50, 100, 50);
    assert_eq!(bottom.count_children(), 0);
}
