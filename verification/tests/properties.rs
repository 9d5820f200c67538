//! Tests of the library's stated properties on concrete values: geometry
//! propagation, translation round trips, anchoring round trips, collapse of
//! redundant containers, and the behaviour of the structural edits.

use frames::defs::{Area, OutputInfo, Position, Size, SurfaceAccess, SurfaceId, Vector};
use frames::exhibitor::{CompositorConfig, Exhibitor, Strategist};
use frames::frame::{Frame, Geometry, Mode, Side};

fn leaf(sid: u64) -> Frame {
    Frame::new(
        SurfaceId::new(sid),
        Mode::Leaf,
        Geometry::Vertical,
        Position::new(0, 0),
        Size::new(10, 10),
        true,
    )
}

fn workspace_with(children: Vec<Frame>) -> Frame {
    let mut ws = Frame::new(
        SurfaceId::invalid(),
        Mode::Workspace,
        Geometry::Stacked,
        Position::new(0, 0),
        Size::new(100, 100),
        true,
    );
    let mut at = 0;
    for c in children {
        ws.insert_child(at, false, c);
        at += 1;
    }
    ws
}

/// Horizontal homogenizing slices the width evenly, gives the remainder to
/// the last slice, and assigns slices in spatial order.
#[test]
fn homogenize_horizontal_slices() {
    let mut ws = workspace_with(vec![leaf(1), leaf(2), leaf(3)]);
    let mut sa = SurfaceAccess::new();
    let empty: Vec<usize> = Vec::new();
    ws.change_geometry(&empty, Geometry::Horizontal, &mut sa);
    assert_eq!(ws.child(0).get_position(), Position::new(0, 0));
    assert_eq!(ws.child(0).get_size(), Size::new(33, 100));
    assert_eq!(ws.child(1).get_position(), Position::new(33, 0));
    assert_eq!(ws.child(1).get_size(), Size::new(33, 100));
    assert_eq!(ws.child(2).get_position(), Position::new(66, 0));
    assert_eq!(ws.child(2).get_size(), Size::new(34, 100));
    // each resized leaf was reported to the surface provider
    assert_eq!(sa.log.len(), 3);
    assert_eq!(sa.log[0], (SurfaceId::new(1), Size::new(33, 100)));
}

/// Stacked homogenizing gives every anchored child the whole rectangle and
/// skips floating children.
#[test]
fn homogenize_stacked_skips_floating() {
    let mut ws = workspace_with(vec![leaf(1), leaf(2)]);
    let mut sa = SurfaceAccess::new();
    let sel: Vec<usize> = vec![1];
    ws.deanchorize(&sel, Area::new(Position::new(5, 6), Size::new(7, 8)), &mut sa);
    let empty: Vec<usize> = Vec::new();
    ws.change_geometry(&empty, Geometry::Stacked, &mut sa);
    assert_eq!(ws.child(0).get_size(), Size::new(100, 100));
    // the floating leaf kept its own rectangle
    let floater = ws.child(1);
    assert!(!floater.is_anchored());
    assert_eq!(floater.get_position(), Position::new(5, 6));
    assert_eq!(floater.get_size(), Size::new(7, 8));
}

/// Moving a subtree by a vector and then by its opposite restores every
/// position.
#[test]
fn move_with_contents_round_trip() {
    let mut ws = workspace_with(vec![leaf(1), leaf(2)]);
    let mut sa = SurfaceAccess::new();
    let empty: Vec<usize> = Vec::new();
    ws.change_geometry(&empty, Geometry::Horizontal, &mut sa);
    let before = (
        ws.get_position(),
        ws.child(0).get_position(),
        ws.child(1).get_position(),
    );
    let v = Vector::new(17, -4);
    ws.move_with_contents(&v);
    assert_eq!(ws.get_position(), Position::new(17, -4));
    assert_eq!(ws.child(0).get_position(), Position::new(17, -4));
    assert_eq!(ws.child(1).get_position(), Position::new(67, -4));
    ws.move_with_contents(&v.opposite());
    let after = (
        ws.get_position(),
        ws.child(0).get_position(),
        ws.child(1).get_position(),
    );
    assert_eq!(before, after);
}

/// The round trip holds even where the translation wraps around the numeric
/// range.
#[test]
fn move_with_contents_round_trip_wrapping() {
    let mut f = leaf(1);
    let v = Vector::new(i64::MAX, i64::MIN);
    f.move_with_contents(&v);
    f.move_with_contents(&v.opposite());
    assert_eq!(f.get_position(), Position::new(0, 0));
}

/// Anchorizing and deanchorizing with the original area restores the
/// floating rectangle and keeps the leaf a direct child of the workspace.
#[test]
fn anchorize_deanchorize_round_trip() {
    let mut ws = workspace_with(vec![leaf(1), leaf(2)]);
    let mut sa = SurfaceAccess::new();
    let a = Area::new(Position::new(3, 4), Size::new(20, 30));
    let sel: Vec<usize> = vec![0];
    let p = ws.deanchorize(&sel, a, &mut sa);
    assert_eq!(p, vec![0]);
    assert!(!ws.child(0).is_anchored());
    assert_eq!(ws.child(0).get_position(), Position::new(3, 4));
    ws.anchorize(&p, &mut sa);
    assert!(ws.child(0).is_anchored());
    assert_eq!(ws.child(0).get_position(), Position::new(0, 0));
    assert_eq!(ws.child(0).get_size(), Size::new(100, 100));
    let p2 = ws.deanchorize(&p, a, &mut sa);
    assert_eq!(p2, vec![0]);
    assert!(!ws.child(0).is_anchored());
    assert_eq!(ws.child(0).get_position(), Position::new(3, 4));
    assert_eq!(ws.child(0).get_size(), Size::new(20, 30));
    assert_eq!(ws.count_children(), 2);
}

/// Collapsing redundant containers reaches a fixed point: a second pass
/// changes nothing.
#[test]
fn deramify_is_idempotent_at_fixed_point() {
    // workspace -> container -> leaf
    let mut container = Frame::new(
        SurfaceId::invalid(),
        Mode::Container,
        Geometry::Stacked,
        Position::new(0, 0),
        Size::new(100, 100),
        true,
    );
    container.insert_child(0, true, leaf(7));
    let mut ws = workspace_with(vec![container]);
    let empty: Vec<usize> = Vec::new();
    // first pass hoists the leaf into the workspace
    ws.deramify(&empty);
    assert_eq!(ws.count_children(), 1);
    assert_eq!(ws.child(0).get_sid(), SurfaceId::new(7));
    assert_eq!(ws.child(0).get_mode(), Mode::Leaf);
    // second pass changes nothing: a workspace never absorbs its only leaf
    ws.deramify(&empty);
    assert_eq!(ws.count_children(), 1);
    assert_eq!(ws.child(0).get_sid(), SurfaceId::new(7));
    assert_eq!(ws.get_mode(), Mode::Workspace);
}

/// Settling into a stacked buildable prepends; the frame becomes anchored
/// and takes the full rectangle after the relax pass.
#[test]
fn settle_prepends_into_stack() {
    let mut ws = workspace_with(vec![leaf(1)]);
    let mut sa = SurfaceAccess::new();
    let empty: Vec<usize> = Vec::new();
    let p = ws.settle(leaf(2), &empty, None, &mut sa);
    assert_eq!(p, Some(vec![0]));
    assert_eq!(ws.child(0).get_sid(), SurfaceId::new(2));
    assert_eq!(ws.child(1).get_sid(), SurfaceId::new(1));
    assert!(ws.child(0).is_anchored());
    assert_eq!(ws.child(0).get_size(), Size::new(100, 100));
}

/// Settling with an area makes the frame float on exactly that rectangle.
#[test]
fn settle_with_area_floats() {
    let mut ws = workspace_with(vec![leaf(1)]);
    let mut sa = SurfaceAccess::new();
    let empty: Vec<usize> = Vec::new();
    let a = Area::new(Position::new(11, 12), Size::new(13, 14));
    let p = ws.settle(leaf(2), &empty, Some(a), &mut sa);
    assert_eq!(p, Some(vec![0]));
    let f = ws.child(0);
    assert!(!f.is_anchored());
    assert_eq!(f.get_position(), Position::new(11, 12));
    assert_eq!(f.get_size(), Size::new(13, 14));
}

/// Jumping a frame onto a leaf wraps the leaf into a stacked container
/// holding both.
#[test]
fn jump_on_leaf_ramifies() {
    let mut ws = workspace_with(vec![leaf(1), leaf(2), leaf(3)]);
    let mut sa = SurfaceAccess::new();
    let from: Vec<usize> = vec![0];
    let to: Vec<usize> = vec![2];
    let q = ws.jump(&from, Side::On, &to, &mut sa);
    assert_eq!(q, Some(vec![1, 0]));
    assert_eq!(ws.count_children(), 2);
    assert_eq!(ws.child(0).get_sid(), SurfaceId::new(2));
    let stack = ws.child(1);
    assert_eq!(stack.get_mode(), Mode::Container);
    assert_eq!(stack.get_geometry(), Geometry::Stacked);
    assert_eq!(stack.child(0).get_sid(), SurfaceId::new(1));
    assert_eq!(stack.child(1).get_sid(), SurfaceId::new(3));
}

/// A surface identifier never appears twice: readying the same surface
/// again changes nothing.
#[test]
fn duplicate_surface_is_ignored() {
    let output_info = OutputInfo::new(
        1,
        Area::new(Position::new(0, 0), Size::new(100, 100)),
        Size::new(100, 100),
        60,
        "m".to_owned(),
        "m".to_owned(),
    );
    let mut e = Exhibitor::new(Strategist::default(), CompositorConfig::default());
    e.on_output_found(output_info);
    e.on_surface_ready(SurfaceId::new(1));
    e.on_surface_ready(SurfaceId::new(1));
    let ws = e.get_root().child(0).child(0);
    assert_eq!(ws.count_children(), 1);
}

/// Destroying an unknown surface is ignored.
#[test]
fn destroy_unknown_surface_is_ignored() {
    let output_info = OutputInfo::new(
        1,
        Area::new(Position::new(0, 0), Size::new(100, 100)),
        Size::new(100, 100),
        60,
        "m".to_owned(),
        "m".to_owned(),
    );
    let mut e = Exhibitor::new(Strategist::default(), CompositorConfig::default());
    e.on_output_found(output_info);
    e.on_surface_ready(SurfaceId::new(1));
    e.on_surface_destroyed(SurfaceId::new(9));
    let ws = e.get_root().child(0).child(0);
    assert_eq!(ws.count_children(), 1);
    assert_eq!(e.get_selection().get_sid(), SurfaceId::new(1));
}

/// Focusing across a boundary is a no-op.
#[test]
fn focus_at_boundary_is_noop() {
    let output_info = OutputInfo::new(
        1,
        Area::new(Position::new(0, 0), Size::new(100, 100)),
        Size::new(100, 100),
        60,
        "m".to_owned(),
        "m".to_owned(),
    );
    let mut e = Exhibitor::new(Strategist::default(), CompositorConfig::default());
    e.on_output_found(output_info);
    e.on_surface_ready(SurfaceId::new(1));
    e.on_surface_ready(SurfaceId::new(2));
    e.verticalize();
    e.focus_down();
    assert_eq!(e.get_selection().get_sid(), SurfaceId::new(1));
    e.focus_down();
    // already at the bottom: nothing changes
    assert_eq!(e.get_selection().get_sid(), SurfaceId::new(1));
    e.focus_up();
    assert_eq!(e.get_selection().get_sid(), SurfaceId::new(2));
    e.focus_up();
    assert_eq!(e.get_selection().get_sid(), SurfaceId::new(2));
}

/// The spatial and temporal sibling orders hold the same children: after
/// prepends and pops every spatial position occurs once in each order.
#[test]
fn sibling_orders_agree() {
    let mut ws = workspace_with(vec![leaf(1), leaf(2), leaf(3)]);
    let mut sa = SurfaceAccess::new();
    let p: Vec<usize> = vec![2];
    ws.pop_recursively(&p, &mut sa);
    // spatial order: popped child moved to the front of the stack
    assert_eq!(ws.child(0).get_sid(), SurfaceId::new(3));
    let n = ws.count_children();
    assert_eq!(n, 3);
    let mut seen = vec![false; n];
    let mut k = 0;
    while k < n {
        let t = ws.temporal_at(k);
        assert!(t < n);
        assert!(!seen[t]);
        seen[t] = true;
        k += 1;
    }
    // the most recently used child is the popped one
    assert_eq!(ws.child(ws.temporal_at(0)).get_sid(), SurfaceId::new(3));
}

/// Resettling the last anchored child onto its own parent leaves the
/// structure as it was: the frame lands again at the end of the same
/// sibling list.
#[test]
fn resettle_to_parent_of_last_child_is_noop() {
    let mut ws = workspace_with(vec![leaf(1), leaf(2), leaf(3)]);
    let mut sa = SurfaceAccess::new();
    let empty: Vec<usize> = Vec::new();
    ws.change_geometry(&empty, Geometry::Horizontal, &mut sa);
    let from: Vec<usize> = vec![2];
    let q = ws.resettle(&from, &empty, &mut sa);
    assert_eq!(q, Some(vec![2]));
    assert_eq!(ws.count_children(), 3);
    assert_eq!(ws.child(0).get_sid(), SurfaceId::new(1));
    assert_eq!(ws.child(1).get_sid(), SurfaceId::new(2));
    assert_eq!(ws.child(2).get_sid(), SurfaceId::new(3));
    assert_eq!(ws.child(2).get_position(), Position::new(66, 0));
    assert_eq!(ws.child(2).get_size(), Size::new(34, 100));
}

/// Ramifying a leaf and collapsing the synthesized container restores the
/// tree; only the leaf's own geometry now reads as the requested one.
#[test]
fn ramify_deramify_restores_leaf() {
    let mut ws = workspace_with(vec![leaf(1), leaf(2)]);
    let p: Vec<usize> = vec![0];
    let host = ws.ramify(&p, Geometry::Stacked);
    assert_eq!(host, vec![0]);
    assert_eq!(ws.child(0).get_mode(), Mode::Container);
    ws.deramify(&host);
    assert_eq!(ws.count_children(), 2);
    assert_eq!(ws.child(0).get_mode(), Mode::Leaf);
    assert_eq!(ws.child(0).get_sid(), SurfaceId::new(1));
    assert_eq!(ws.child(0).get_geometry(), Geometry::Stacked);
    assert!(ws.child(0).is_anchored());
    assert_eq!(ws.child(1).get_sid(), SurfaceId::new(2));
}

/// The jump command moves the selected frame before the frame showing the
/// named surface.
#[test]
fn jump_command_moves_before_target() {
    let output_info = OutputInfo::new(
        1,
        Area::new(Position::new(0, 0), Size::new(100, 100)),
        Size::new(100, 100),
        60,
        "m".to_owned(),
        "m".to_owned(),
    );
    let mut e = Exhibitor::new(Strategist::default(), CompositorConfig::default());
    e.on_output_found(output_info);
    e.on_surface_ready(SurfaceId::new(1));
    e.on_surface_ready(SurfaceId::new(2));
    e.on_surface_ready(SurfaceId::new(3));
    // lay the workspace out vertically so the jump is not followed by a
    // stacking pop, then jump the selected surface 3 before surface 1
    e.verticalize();
    e.jump(Side::Before, SurfaceId::new(1));
    let ws = e.get_root().child(0).child(0);
    assert_eq!(ws.count_children(), 3);
    assert_eq!(ws.child(0).get_sid(), SurfaceId::new(2));
    assert_eq!(ws.child(1).get_sid(), SurfaceId::new(3));
    assert_eq!(ws.child(2).get_sid(), SurfaceId::new(1));
    assert_eq!(e.get_selection().get_sid(), SurfaceId::new(3));
}

/// Popping is purely an order change: it notifies the provider of nothing.
#[test]
fn pop_emits_no_reconfigure() {
    let mut ws = workspace_with(vec![leaf(1), leaf(2), leaf(3)]);
    let mut sa = SurfaceAccess::new();
    let p: Vec<usize> = vec![2];
    ws.pop_recursively(&p, &mut sa);
    assert_eq!(sa.log.len(), 0);
}

/// The advisory size of a surface is the one the provider was last told.
#[test]
fn get_size_reports_last_notification() {
    let mut sa = SurfaceAccess::new();
    assert_eq!(sa.get_size(SurfaceId::new(5)), Size::new(0, 0));
    sa.reconfigure(SurfaceId::new(5), Size::new(10, 20));
    sa.reconfigure(SurfaceId::new(6), Size::new(1, 2));
    sa.reconfigure(SurfaceId::new(5), Size::new(30, 40));
    assert_eq!(sa.get_size(SurfaceId::new(5)), Size::new(30, 40));
    assert_eq!(sa.get_size(SurfaceId::new(6)), Size::new(1, 2));
    assert_eq!(sa.get_size(SurfaceId::new(7)), Size::new(0, 0));
}
