//! The exhibitor: the facade that owns the tree, the current selection and
//! the strategist policy, and translates world events and user commands
//! into settling operations.

use vstd::prelude::*;

use crate::defs::{Area, OutputInfo, Position, Size, SurfaceAccess, SurfaceId};
use crate::frame::{Frame, FrameView, Geometry, Mode, Side};
use crate::searching::clone_path;

verus! {

broadcast use vstd::std_specs::vec::group_vec_axioms;

/// Configuration of the strategist: how the target of a new surface is
/// chosen.
pub struct StrategistConfig {
    pub choose_target: String,
}

impl Default for StrategistConfig {
    /// New surfaces settle anchored beside the selection.
    fn default() -> (r: StrategistConfig) {
        StrategistConfig { choose_target: "anchored".to_owned() }
    }
}

/// Policy deciding where a new surface settles and whether it floats.
pub struct Strategist {
    /// When set, surfaces the provider marks as popups would float; every
    /// top-level surface still settles anchored beside the selection.
    pub anchored_but_popups: bool,
}

impl Default for Strategist {
    fn default() -> (r: Strategist)
        ensures
            !r.anchored_but_popups,
    {
        Strategist { anchored_but_popups: false }
    }
}

impl Strategist {
    pub fn new_from_config(config: StrategistConfig) -> (r: Strategist)
        ensures
            r.anchored_but_popups == (config.choose_target@ == "anchored_but_popups"@),
    {
        let wanted: String = "anchored_but_popups".to_owned();
        Strategist { anchored_but_popups: config.choose_target == wanted }
    }

    /// Target for a new surface: the selection.  A top-level surface
    /// (`popup` is `None`) settles tiled; under the popup policy a popup
    /// floats on the provider-supplied area.  The strategist is
    /// deterministic in its configuration and arguments.
    pub fn choose_target(&self, selection: &Vec<usize>, popup: Option<Area>) -> (r: (
        Vec<usize>,
        Option<Area>,
    ))
        ensures
            r.0@ == selection@,
            r.1 == (if self.anchored_but_popups {
                popup
            } else {
                None::<Area>
            }),
    {
        let area = if self.anchored_but_popups {
            popup
        } else {
            None
        };
        (clone_path(selection), area)
    }

    /// The geometry a new leaf carries: under the popup policy a leaf
    /// stacks whatever later dives onto it; otherwise it splits vertically.
    pub open spec fn spec_leaf_geometry(self) -> Geometry {
        if self.anchored_but_popups {
            Geometry::Stacked
        } else {
            Geometry::Vertical
        }
    }

    pub fn leaf_geometry(&self) -> (r: Geometry)
        ensures
            r == self.spec_leaf_geometry(),
    {
        if self.anchored_but_popups {
            Geometry::Stacked
        } else {
            Geometry::Vertical
        }
    }

    /// Default placement for a floating surface of the given size.
    pub fn choose_floating(&self, size: Size) -> (r: Area)
        ensures
            r == (Area { pos: Position { x: 0, y: 0 }, size }),
    {
        Area { pos: Position { x: 0, y: 0 }, size }
    }
}

/// Compositor-wide configuration: the geometry new workspaces start with.
pub struct CompositorConfig {
    pub workspace_geometry: Geometry,
}

impl Default for CompositorConfig {
    /// Fresh workspaces stack their children.
    fn default() -> (r: CompositorConfig)
        ensures
            r.workspace_geometry is Stacked,
    {
        CompositorConfig { workspace_geometry: Geometry::Stacked }
    }
}

/// The facade coordinating the tree, the selection and the strategist.
pub struct Exhibitor {
    pub root: Frame,
    pub selection: Vec<usize>,
    pub strategist: Strategist,
    pub config: CompositorConfig,
    pub sa: SurfaceAccess,
}

impl Exhibitor {
    /// The tree is well-formed and the selection names one of its nodes.
    pub open spec fn inv(self) -> bool {
        &&& self.root@.wf()
        &&& self.root@.valid_path(self.selection@)
    }

    /// The candidate selection as the facade adopts it: itself when it
    /// names a node of `root`, the root otherwise.
    pub open spec fn spec_checked_sel(root: FrameView, p: Seq<usize>) -> Seq<usize> {
        if root.valid_path(p) {
            p
        } else {
            Seq::<usize>::empty()
        }
    }

    /// The display frame a found output becomes: its area, holding one
    /// empty workspace with the configured geometry.
    pub open spec fn spec_new_display(area: Area, g: Geometry) -> FrameView {
        FrameView {
            sid: SurfaceId { value: 0 },
            mode: Mode::Display,
            geometry: Geometry::Vertical,
            pos: area.pos,
            size: area.size,
            anchored: false,
            spatial: seq![
                FrameView {
                    sid: SurfaceId { value: 0 },
                    mode: Mode::Workspace,
                    geometry: g,
                    pos: Position { x: 0, y: 0 },
                    size: area.size,
                    anchored: true,
                    spatial: Seq::<FrameView>::empty(),
                    temporal: Seq::<usize>::empty(),
                },
            ],
            temporal: seq![0usize],
        }
    }

    /// The leaf frame a ready surface becomes.
    pub open spec fn spec_new_leaf(sid: SurfaceId, g: Geometry) -> FrameView {
        FrameView {
            sid,
            mode: Mode::Leaf,
            geometry: g,
            pos: Position { x: 0, y: 0 },
            size: Size { width: 0, height: 0 },
            anchored: true,
            spatial: Seq::<FrameView>::empty(),
            temporal: Seq::<usize>::empty(),
        }
    }

    /// The tree after a new surface settled at the selection and was
    /// popped.
    pub open spec fn spec_ready_tree(
        root: FrameView,
        sel: Seq<usize>,
        sid: SurfaceId,
        g: Geometry,
    ) -> FrameView {
        let t1 = FrameView::spec_settle(root, Self::spec_new_leaf(sid, g), sel, None);
        match FrameView::spec_settle_path(root, sel) {
            None => t1,
            Some(q) => FrameView::spec_pop_recursively(t1, q),
        }
    }

    /// The selection after a new surface settled: the popped leaf's place.
    pub open spec fn spec_ready_sel(
        root: FrameView,
        sel: Seq<usize>,
        sid: SurfaceId,
        g: Geometry,
    ) -> Seq<usize> {
        let t1 = FrameView::spec_settle(root, Self::spec_new_leaf(sid, g), sel, None);
        match FrameView::spec_settle_path(root, sel) {
            None => sel,
            Some(q) => Self::spec_checked_sel(
                FrameView::spec_pop_recursively(t1, q),
                FrameView::spec_pop_path(t1, q),
            ),
        }
    }

    /// The tree after the selection jumped to `side` of the node at `t` and
    /// the jumped frame, where it landed, was popped.
    pub open spec fn spec_jump_then_pop_tree(
        root: FrameView,
        sel: Seq<usize>,
        side: Side,
        t: Seq<usize>,
    ) -> FrameView {
        let j = FrameView::spec_jump(root, sel, side, t);
        match FrameView::spec_jump_path(root, sel, side, t) {
            None => j,
            Some(qq) => if j.valid_path(qq) {
                FrameView::spec_pop_recursively(j, qq)
            } else {
                j
            },
        }
    }

    /// The selection after that jump: the popped landing place, or the old
    /// selection where the jump was refused.
    pub open spec fn spec_jump_then_pop_sel(
        root: FrameView,
        sel: Seq<usize>,
        side: Side,
        t: Seq<usize>,
    ) -> Seq<usize> {
        let j = FrameView::spec_jump(root, sel, side, t);
        match FrameView::spec_jump_path(root, sel, side, t) {
            None => Self::spec_checked_sel(j, sel),
            Some(qq) => if j.valid_path(qq) {
                Self::spec_checked_sel(
                    FrameView::spec_pop_recursively(j, qq),
                    FrameView::spec_pop_path(j, qq),
                )
            } else {
                Self::spec_checked_sel(j, qq)
            },
        }
    }

    /// The tree after the node at `cur` was destroyed: the node leaves its
    /// parent, the parent is relaxed, and a parent thereby emptied to a
    /// childless non-top container is destroyed in turn.
    pub open spec fn spec_destroyed_tree(root: FrameView, cur: Seq<usize>) -> FrameView
        decreases cur.len(),
    {
        if cur.len() == 0 {
            root
        } else {
            let pr = cur.drop_last();
            let i = cur.last() as int;
            let t1 = root.update_at(pr, root.frame_at(pr).with_removed(i));
            let n1 = t1.frame_at(pr);
            let t2 = t1.update_at(pr, n1.relaxed(n1.pos, n1.size));
            let n2 = t2.frame_at(pr);
            if n2.spatial.len() == 0 && n2.mode is Container && pr.len() >= 1 {
                Self::spec_destroyed_tree(t2, pr)
            } else {
                t2
            }
        }
    }

    /// The selection after the node at `cur` was destroyed: at the first
    /// surviving level, the destroyed child's temporal predecessor, else the
    /// parent's temporal head, else the parent itself.
    pub open spec fn spec_destroyed_sel(root: FrameView, cur: Seq<usize>) -> Seq<usize>
        decreases cur.len(),
    {
        if cur.len() == 0 {
            Seq::<usize>::empty()
        } else {
            let pr = cur.drop_last();
            let i = cur.last() as int;
            let parent = root.frame_at(pr);
            let keep = match parent.temporal.index_of_first(cur.last()) {
                Some(j) => if j > 0 {
                    if parent.temporal[j - 1] > cur.last() {
                        Some((parent.temporal[j - 1] - 1) as usize)
                    } else {
                        Some(parent.temporal[j - 1])
                    }
                } else {
                    None
                },
                None => None,
            };
            let t1 = root.update_at(pr, parent.with_removed(i));
            let n1 = t1.frame_at(pr);
            let t2 = t1.update_at(pr, n1.relaxed(n1.pos, n1.size));
            let n2 = t2.frame_at(pr);
            if n2.spatial.len() == 0 && n2.mode is Container && pr.len() >= 1 {
                Self::spec_destroyed_sel(t2, pr)
            } else {
                match keep {
                    Some(t) => if (t as int) < n2.spatial.len() {
                        pr.push(t)
                    } else {
                        pr
                    },
                    None => if n2.spatial.len() > 0 {
                        pr.push(n2.temporal[0])
                    } else {
                        pr
                    },
                }
            }
        }
    }

    pub fn new(strategist: Strategist, config: CompositorConfig) -> (r: Exhibitor)
        ensures
            r.inv(),
            r.root@.spatial.len() == 0,
            r.root@.mode is Root,
    {
        let root = Frame::new(
            SurfaceId::invalid(),
            Mode::Root,
            Geometry::Vertical,
            Position { x: 0, y: 0 },
            Size { width: 0, height: 0 },
            false,
        );
        Exhibitor {
            root,
            selection: Vec::new(),
            strategist,
            config,
            sa: SurfaceAccess::new(),
        }
    }

    pub fn get_root(&self) -> (r: &Frame)
        ensures
            r@ == self.root@,
    {
        &self.root
    }

    /// The record of every size notification sent to the surface provider.
    pub fn get_surface_access(&self) -> (r: &SurfaceAccess)
        ensures
            r == &self.sa,
    {
        &self.sa
    }

    pub fn get_selection(&self) -> (r: &Frame)
        requires
            self.inv(),
        ensures
            r@ == self.root@.frame_at(self.selection@),
    {
        self.root.frame_ref(&self.selection)
    }

    /// Keep the selection on a valid node: fall back to the root when the
    /// candidate no longer names one.
    fn set_selection_checked(&mut self, p: Vec<usize>)
        requires
            old(self).root@.wf(),
        ensures
            final(self).inv(),
            final(self).root == old(self).root,
            final(self).sa == old(self).sa,
            final(self).strategist == old(self).strategist,
            final(self).config == old(self).config,
            final(self).selection@ == (if old(self).root@.valid_path(p@) {
                p@
            } else {
                Seq::<usize>::empty()
            }),
    {
        if self.root.is_valid_path(&p) {
            self.selection = p;
        } else {
            self.selection = Vec::new();
            proof {
                assert(self.root@.valid_path(Seq::<usize>::empty()));
            }
        }
    }

    /// A new output appeared: give it a display frame holding one empty
    /// workspace, and select that workspace when it is the first.
    pub fn on_output_found(&mut self, output: OutputInfo)
        requires
            old(self).inv(),
        ensures
            final(self).inv(),
            final(self).root@ == old(self).root@.with_inserted(
                old(self).root@.spatial.len() as int,
                false,
                Self::spec_new_display(output.area, old(self).config.workspace_geometry),
            ),
            final(self).selection@ == Self::spec_checked_sel(
                final(self).root@,
                if old(self).root@.spatial.len() == 0 {
                    seq![0usize, 0usize]
                } else {
                    old(self).selection@
                },
            ),
    {
        let first = self.root.count_children() == 0;
        let at = self.root.count_children();
        let mut display = Frame::new(
            SurfaceId::invalid(),
            Mode::Display,
            Geometry::Vertical,
            output.area.pos,
            output.area.size,
            false,
        );
        let workspace = Frame::new(
            SurfaceId::invalid(),
            Mode::Workspace,
            self.config.workspace_geometry,
            Position { x: 0, y: 0 },
            output.area.size,
            true,
        );
        let ghost wsv = workspace@;
        display.insert_child(0, true, workspace);
        proof {
            assert(display@.wf()) by {
                assert forall|i: int| 0 <= i < display@.spatial.len() implies (
                #[trigger] display@.spatial[i]).wf() by {
                }
            }
            let spec_display = Self::spec_new_display(output.area, self.config.workspace_geometry);
            assert(wsv =~= spec_display.spatial[0]);
            assert(display@.spatial =~= spec_display.spatial);
            assert(display@.temporal =~= spec_display.temporal);
            assert(display@ =~= spec_display);
            assert(Seq::<usize>::empty().skip(0) =~= Seq::<usize>::empty());
        }
        let empty: Vec<usize> = Vec::new();
        self.root.apply_at(
            &empty,
            0,
            crate::packing::Edit::Insert(at, false, display),
            &mut self.sa,
        );
        if first {
            let mut sel: Vec<usize> = Vec::new();
            sel.push(at);
            sel.push(0);
            proof {
                assert(at == 0);
                assert(sel@ =~= seq![0usize, 0usize]);
            }
            self.set_selection_checked(sel);
        } else {
            let sel = clone_path(&self.selection);
            self.set_selection_checked(sel);
        }
    }

    /// A new surface is ready: create a leaf for it, settle it where the
    /// strategist says, select it and pop it.  A surface already shown is
    /// left as it is, so no identifier ever appears twice.
    pub fn on_surface_ready(&mut self, sid: SurfaceId)
        requires
            old(self).inv(),
        ensures
            final(self).inv(),
            old(self).root@.contains_sid(sid) ==> final(self).root@ == old(self).root@
                && final(self).selection@ == old(self).selection@,
            !sid.spec_is_valid() ==> final(self).root@ == old(self).root@ && final(self).selection@
                == old(self).selection@,
            sid.spec_is_valid() && !old(self).root@.contains_sid(sid) ==> final(self).root@
                == Self::spec_ready_tree(
                old(self).root@,
                old(self).selection@,
                sid,
                old(self).strategist.spec_leaf_geometry(),
            ),
            sid.spec_is_valid() && !old(self).root@.contains_sid(sid)
                ==> final(self).selection@ == Self::spec_ready_sel(
                old(self).root@,
                old(self).selection@,
                sid,
                old(self).strategist.spec_leaf_geometry(),
            ),
    {
        if !sid.is_valid() {
            return;
        }
        match self.root.locate_sid(sid) {
            Some(p) => {
                proof {
                    crate::searching::lemma_frame_at_sid_contains(self.root@, p@, sid);
                }
                return;
            },
            None => {},
        }
        let (target, area) = self.strategist.choose_target(&self.selection, None);
        let g = self.strategist.leaf_geometry();
        let leaf = Frame::new(
            sid,
            Mode::Leaf,
            g,
            Position { x: 0, y: 0 },
            Size { width: 0, height: 0 },
            true,
        );
        proof {
            assert(leaf@ =~= Self::spec_new_leaf(sid, g));
        }
        match self.root.settle(leaf, &target, area, &mut self.sa) {
            Some(q) => {
                let q2 = self.root.pop_recursively(&q, &mut self.sa);
                self.set_selection_checked(q2);
            },
            None => {
                let sel = clone_path(&self.selection);
                self.set_selection_checked(sel);
                proof {
                    assert(self.root@.valid_path(self.selection@));
                }
            },
        }
    }

    /// A surface disappeared: destroy its leaf, collapse emptied containers
    /// upwards, and select the temporal predecessor at the first surviving
    /// level.  An unknown identifier is ignored.
    pub fn on_surface_destroyed(&mut self, sid: SurfaceId)
        requires
            old(self).inv(),
        ensures
            final(self).inv(),
            !sid.spec_is_valid() ==> final(self).root@ == old(self).root@ && final(self).selection@
                == old(self).selection@,
            !old(self).root@.contains_sid(sid) ==> final(self).root@ == old(self).root@
                && final(self).selection@ == old(self).selection@,
            sid.spec_is_valid() && old(self).root@.contains_sid(sid) ==> exists|p: Seq<usize>|
                #[trigger] old(self).root@.valid_path(p) && old(self).root@.frame_at(p).sid == sid
                    && final(self).root@ == Self::spec_destroyed_tree(old(self).root@, p)
                    && final(self).selection@ == Self::spec_checked_sel(
                    final(self).root@,
                    Self::spec_destroyed_sel(old(self).root@, p),
                ),
    {
        if !sid.is_valid() {
            return;
        }
        let mut cur = match self.root.locate_sid(sid) {
            Some(p) => {
                proof {
                    crate::searching::lemma_frame_at_sid_contains(self.root@, p@, sid);
                }
                p
            },
            None => {
                return;
            },
        };
        let ghost p0 = cur@;
        loop
            invariant
                self.root@.wf(),
                self.root@.valid_path(cur@),
                sid.spec_is_valid(),
                old(self).root@.contains_sid(sid),
                old(self).root@.valid_path(p0),
                old(self).root@.frame_at(p0).sid == sid,
                Self::spec_destroyed_tree(old(self).root@, p0) == Self::spec_destroyed_tree(
                    self.root@,
                    cur@,
                ),
                Self::spec_destroyed_sel(old(self).root@, p0) == Self::spec_destroyed_sel(
                    self.root@,
                    cur@,
                ),
            decreases cur@.len(),
        {
            if cur.len() == 0 {
                let sel: Vec<usize> = Vec::new();
                self.set_selection_checked(sel);
                proof {
                    assert(old(self).root@.valid_path(p0) && old(self).root@.frame_at(p0).sid
                        == sid && self.root@ == Self::spec_destroyed_tree(old(self).root@, p0)
                        && self.selection@ == Self::spec_checked_sel(
                        self.root@,
                        Self::spec_destroyed_sel(old(self).root@, p0),
                    ));
                }
                return;
            }
            let ghost t0 = self.root@;
            let mut pr = clone_path(&cur);
            let i = match pr.pop() {
                Some(i) => i,
                None => 0,
            };
            proof {
                assert(pr@ =~= cur@.drop_last());
                assert(i == cur@.last());
                crate::searching::lemma_valid_path_drop_last(t0, cur@);
                crate::searching::lemma_frame_at_wf(t0, pr@);
                assert(pr@.skip(0) =~= pr@);
            }
            // the more recent sibling of the leaving child, if any
            let j = self.root.frame_ref(&pr).find_temporal_slot(i);
            proof {
                let pt = t0.frame_at(pr@).temporal;
                pt.index_of_first_ensures(i);
                assert(pt.contains(i)) by {
                    assert(pt[j as int] == i);
                }
                let jj = pt.index_of_first(i)->Some_0;
                if jj < j {
                    assert(pt[jj] == i);
                }
                if jj > j {
                    assert(pt[j as int] != i);
                }
                assert(pt.index_of_first(i) == Some(j as int));
            }
            let keep: Option<usize> = if j > 0 {
                let t = self.root.frame_ref(&pr).temporal_at(j - 1);
                Some(if t > i {
                    t - 1
                } else {
                    t
                })
            } else {
                None
            };
            self.root.apply_at(&pr, 0, crate::packing::Edit::Remove(i), &mut self.sa);
            let ghost t1 = self.root@;
            proof {
                crate::frame::lemma_update_at_frame_at(
                    t0,
                    pr@,
                    crate::packing::edit_spec(t0.frame_at(pr@), crate::packing::Edit::Remove(i)),
                );
            }
            self.root.apply_at(&pr, 0, crate::packing::Edit::Relax, &mut self.sa);
            proof {
                crate::frame::lemma_update_at_frame_at(
                    t1,
                    pr@,
                    crate::packing::edit_spec(t1.frame_at(pr@), crate::packing::Edit::Relax),
                );
            }
            let count = self.root.frame_ref(&pr).count_children();
            let pmode = self.root.frame_ref(&pr).get_mode();
            if count == 0 && matches!(pmode, Mode::Container) && pr.len() >= 1 {
                cur = pr;
                continue;
            }
            let mut sel = pr;
            match keep {
                Some(t) => {
                    if t < count {
                        sel.push(t);
                    }
                },
                None => {
                    if count > 0 {
                        proof {
                            crate::searching::lemma_frame_at_wf(self.root@, sel@);
                        }
                        let h = self.root.frame_ref(&sel).temporal_at(0);
                        sel.push(h);
                    }
                },
            }
            self.set_selection_checked(sel);
            proof {
                assert(sel@ == Self::spec_destroyed_sel(old(self).root@, p0));
                assert(old(self).root@.valid_path(p0) && old(self).root@.frame_at(p0).sid == sid
                    && self.root@ == Self::spec_destroyed_tree(old(self).root@, p0)
                    && self.selection@ == Self::spec_checked_sel(
                    self.root@,
                    Self::spec_destroyed_sel(old(self).root@, p0),
                ));
            }
            return;
        }
    }

    /// Move the selected frame one level up the tree, to just after its old
    /// parent.  Bounded by the tops: with a workspace, display or root as
    /// parent nothing changes.
    pub fn exalt(&mut self)
        requires
            old(self).inv(),
        ensures
            final(self).inv(),
            old(self).selection@.len() == 0 ==> final(self).root@ == old(self).root@
                && final(self).selection@ == old(self).selection@,
            old(self).selection@.len() >= 1 && old(self).root@.frame_at(
                old(self).selection@.drop_last(),
            ).mode.spec_is_top() ==> final(self).root@ == old(self).root@ && final(self).selection@
                == old(self).selection@,
            old(self).selection@.len() >= 1 && !old(self).root@.frame_at(
                old(self).selection@.drop_last(),
            ).mode.spec_is_top() ==> final(self).root@ == FrameView::spec_jump(
                old(self).root@,
                old(self).selection@,
                Side::After,
                old(self).selection@.drop_last(),
            ),
            old(self).selection@.len() >= 1 && !old(self).root@.frame_at(
                old(self).selection@.drop_last(),
            ).mode.spec_is_top() ==> final(self).selection@ == (
            match FrameView::spec_jump_path(
                old(self).root@,
                old(self).selection@,
                Side::After,
                old(self).selection@.drop_last(),
            ) {
                Some(q) => Self::spec_checked_sel(final(self).root@, q),
                None => Self::spec_checked_sel(final(self).root@, old(self).selection@),
            }),
    {
        if self.selection.len() == 0 {
            return;
        }
        let ghost t0 = self.root@;
        let sel = clone_path(&self.selection);
        let mut pr = clone_path(&sel);
        let _ = pr.pop();
        proof {
            assert(pr@ =~= sel@.drop_last());
            crate::searching::lemma_valid_path_drop_last(t0, sel@);
        }
        if self.root.frame_ref(&pr).get_mode().is_top() {
            return;
        }
        match self.root.jump(&sel, Side::After, &pr, &mut self.sa) {
            Some(q) => {
                self.set_selection_checked(q);
            },
            None => {
                let keep = clone_path(&self.selection);
                self.set_selection_checked(keep);
            },
        }
    }

    /// Wrap the selection into a dedicated stacked container and select it.
    pub fn ramify(&mut self)
        requires
            old(self).inv(),
        ensures
            final(self).inv(),
            old(self).selection@.len() == 0 ==> final(self).root@ == old(self).root@
                && final(self).selection@ == old(self).selection@,
            old(self).selection@.len() >= 1 ==> final(self).root@
                == FrameView::spec_pop_recursively(
                FrameView::spec_ramify(old(self).root@, old(self).selection@, Geometry::Stacked),
                FrameView::spec_ramify_path(old(self).root@, old(self).selection@),
            ) && final(self).selection@ == Self::spec_checked_sel(
                final(self).root@,
                FrameView::spec_pop_path(
                    FrameView::spec_ramify(
                        old(self).root@,
                        old(self).selection@,
                        Geometry::Stacked,
                    ),
                    FrameView::spec_ramify_path(old(self).root@, old(self).selection@),
                ),
            ),
    {
        if self.selection.len() == 0 {
            return;
        }
        let sel = clone_path(&self.selection);
        let q = self.root.ramify(&sel, Geometry::Stacked);
        let q2 = self.root.pop_recursively(&q, &mut self.sa);
        self.set_selection_checked(q2);
    }

    fn change_selection_geometry(&mut self, g: Geometry)
        requires
            old(self).inv(),
        ensures
            final(self).inv(),
            old(self).root@.buildable_path(old(self).selection@) is None ==> final(self).root@
                == old(self).root@ && final(self).selection@ == old(self).selection@,
            old(self).root@.buildable_path(old(self).selection@) matches Some(b)
                ==> final(self).root@ == FrameView::spec_change_geometry(old(self).root@, b, g)
                && final(self).selection@ == Self::spec_checked_sel(
                final(self).root@,
                old(self).selection@,
            ),
    {
        let sel = clone_path(&self.selection);
        match self.root.find_buildable(&sel) {
            Some(b) => {
                self.root.change_geometry(&b, g, &mut self.sa);
                let keep = clone_path(&self.selection);
                self.set_selection_checked(keep);
            },
            None => {},
        }
    }

    /// Lay the selection's buildable out horizontally.
    pub fn horizontalize(&mut self)
        requires
            old(self).inv(),
        ensures
            final(self).inv(),
            old(self).root@.buildable_path(old(self).selection@) is None ==> final(self).root@
                == old(self).root@ && final(self).selection@ == old(self).selection@,
            old(self).root@.buildable_path(old(self).selection@) matches Some(b)
                ==> final(self).root@ == FrameView::spec_change_geometry(
                old(self).root@,
                b,
                Geometry::Horizontal,
            ) && final(self).selection@ == Self::spec_checked_sel(
                final(self).root@,
                old(self).selection@,
            ),
    {
        self.change_selection_geometry(Geometry::Horizontal);
    }

    /// Lay the selection's buildable out vertically.
    pub fn verticalize(&mut self)
        requires
            old(self).inv(),
        ensures
            final(self).inv(),
            old(self).root@.buildable_path(old(self).selection@) is None ==> final(self).root@
                == old(self).root@ && final(self).selection@ == old(self).selection@,
            old(self).root@.buildable_path(old(self).selection@) matches Some(b)
                ==> final(self).root@ == FrameView::spec_change_geometry(
                old(self).root@,
                b,
                Geometry::Vertical,
            ) && final(self).selection@ == Self::spec_checked_sel(
                final(self).root@,
                old(self).selection@,
            ),
    {
        self.change_selection_geometry(Geometry::Vertical);
    }

    /// Stack the selection's buildable.
    pub fn stackize(&mut self)
        requires
            old(self).inv(),
        ensures
            final(self).inv(),
            old(self).root@.buildable_path(old(self).selection@) is None ==> final(self).root@
                == old(self).root@ && final(self).selection@ == old(self).selection@,
            old(self).root@.buildable_path(old(self).selection@) matches Some(b)
                ==> final(self).root@ == FrameView::spec_change_geometry(
                old(self).root@,
                b,
                Geometry::Stacked,
            ) && final(self).selection@ == Self::spec_checked_sel(
                final(self).root@,
                old(self).selection@,
            ),
    {
        self.change_selection_geometry(Geometry::Stacked);
    }

    /// Anchor the selected floating leaf again.
    pub fn anchorize(&mut self)
        requires
            old(self).inv(),
        ensures
            final(self).inv(),
            old(self).selection@.len() == 0 ==> final(self).root@ == old(self).root@
                && final(self).selection@ == old(self).selection@,
            old(self).selection@.len() >= 1 ==> final(self).root@ == FrameView::spec_anchorize(
                old(self).root@,
                old(self).selection@,
            ) && final(self).selection@ == Self::spec_checked_sel(
                final(self).root@,
                old(self).selection@,
            ),
    {
        if self.selection.len() == 0 {
            return;
        }
        let sel = clone_path(&self.selection);
        self.root.anchorize(&sel, &mut self.sa);
        let keep = clone_path(&self.selection);
        self.set_selection_checked(keep);
    }

    /// Let the selected leaf float on the given rectangle.
    pub fn deanchorize(&mut self, area: Area)
        requires
            old(self).inv(),
        ensures
            final(self).inv(),
            old(self).selection@.len() == 0 ==> final(self).root@ == old(self).root@
                && final(self).selection@ == old(self).selection@,
            old(self).selection@.len() >= 1 ==> final(self).root@ == FrameView::spec_deanchorize(
                old(self).root@,
                old(self).selection@,
                area,
            ) && final(self).selection@ == Self::spec_checked_sel(
                final(self).root@,
                FrameView::spec_deanchorize_path(old(self).root@, old(self).selection@, area),
            ),
    {
        if self.selection.len() == 0 {
            return;
        }
        let sel = clone_path(&self.selection);
        let q = self.root.deanchorize(&sel, area, &mut self.sa);
        self.set_selection_checked(q);
    }

    /// Move the selection to the spatial neighbour in the given direction.
    /// At a boundary nothing changes.
    fn focus_dir(&mut self, horizontal: bool, forward: bool)
        requires
            old(self).inv(),
        ensures
            final(self).inv(),
            Frame::spec_neighbour_level(
                old(self).root@,
                old(self).selection@,
                horizontal,
                forward,
                old(self).selection@.len() - 1,
            ) is None ==> final(self).root@ == old(self).root@ && final(self).selection@ == old(
                self,
            ).selection@,
            Frame::spec_neighbour_level(
                old(self).root@,
                old(self).selection@,
                horizontal,
                forward,
                old(self).selection@.len() - 1,
            ) is Some ==> exists|q: Seq<usize>|
                #[trigger] old(self).root@.valid_path(q) && Frame::spec_neighbour_result_ok(
                    old(self).root@,
                    old(self).selection@,
                    horizontal,
                    forward,
                    q,
                ) && final(self).root@ == FrameView::spec_pop_recursively(old(self).root@, q)
                    && final(self).selection@ == Self::spec_checked_sel(
                    final(self).root@,
                    FrameView::spec_pop_path(old(self).root@, q),
                ),
    {
        let sel = clone_path(&self.selection);
        match self.root.find_neighbour(&sel, horizontal, forward) {
            Some(q) => {
                let ghost qv = q@;
                let q2 = self.root.pop_recursively(&q, &mut self.sa);
                self.set_selection_checked(q2);
                proof {
                    assert(old(self).root@.valid_path(qv) && Frame::spec_neighbour_result_ok(
                        old(self).root@,
                        old(self).selection@,
                        horizontal,
                        forward,
                        qv,
                    ) && self.root@ == FrameView::spec_pop_recursively(old(self).root@, qv)
                        && self.selection@ == Self::spec_checked_sel(
                        self.root@,
                        FrameView::spec_pop_path(old(self).root@, qv),
                    ));
                }
            },
            None => {},
        }
    }

    pub fn focus_left(&mut self)
        requires
            old(self).inv(),
        ensures
            final(self).inv(),
    {
        self.focus_dir(true, false);
    }

    pub fn focus_right(&mut self)
        requires
            old(self).inv(),
        ensures
            final(self).inv(),
    {
        self.focus_dir(true, true);
    }

    pub fn focus_up(&mut self)
        requires
            old(self).inv(),
        ensures
            final(self).inv(),
    {
        self.focus_dir(false, false);
    }

    pub fn focus_down(&mut self)
        requires
            old(self).inv(),
        ensures
            final(self).inv(),
    {
        self.focus_dir(false, true);
    }

    /// Move the selection one level into the neighbour in the given
    /// direction, creating a stacked container there as necessary.
    fn dive_dir(&mut self, horizontal: bool, forward: bool)
        requires
            old(self).inv(),
        ensures
            final(self).inv(),
            Frame::spec_neighbour_level(
                old(self).root@,
                old(self).selection@,
                horizontal,
                forward,
                old(self).selection@.len() - 1,
            ) is None ==> final(self).root@ == old(self).root@ && final(self).selection@ == old(
                self,
            ).selection@,
            Frame::spec_neighbour_level(
                old(self).root@,
                old(self).selection@,
                horizontal,
                forward,
                old(self).selection@.len() - 1,
            ) is Some ==> exists|t: Seq<usize>|
                #[trigger] old(self).root@.valid_path(t) && Frame::spec_neighbour_result_ok(
                    old(self).root@,
                    old(self).selection@,
                    horizontal,
                    forward,
                    t,
                ) && final(self).root@ == Self::spec_jump_then_pop_tree(
                    old(self).root@,
                    old(self).selection@,
                    Side::On,
                    t,
                ) && final(self).selection@ == Self::spec_jump_then_pop_sel(
                    old(self).root@,
                    old(self).selection@,
                    Side::On,
                    t,
                ),
    {
        if self.selection.len() == 0 {
            return;
        }
        let sel = clone_path(&self.selection);
        match self.root.find_neighbour(&sel, horizontal, forward) {
            Some(t) => {
                let ghost tv = t@;
                match self.root.jump(&sel, Side::On, &t, &mut self.sa) {
                    Some(q) => {
                        if self.root.is_valid_path(&q) {
                            let q2 = self.root.pop_recursively(&q, &mut self.sa);
                            self.set_selection_checked(q2);
                        } else {
                            self.set_selection_checked(q);
                        }
                    },
                    None => {
                        let keep = clone_path(&self.selection);
                        self.set_selection_checked(keep);
                    },
                }
                proof {
                    assert(old(self).root@.valid_path(tv) && Frame::spec_neighbour_result_ok(
                        old(self).root@,
                        old(self).selection@,
                        horizontal,
                        forward,
                        tv,
                    ) && self.root@ == Self::spec_jump_then_pop_tree(
                        old(self).root@,
                        old(self).selection@,
                        Side::On,
                        tv,
                    ) && self.selection@ == Self::spec_jump_then_pop_sel(
                        old(self).root@,
                        old(self).selection@,
                        Side::On,
                        tv,
                    ));
                }
            },
            None => {},
        }
    }

    pub fn dive_left(&mut self)
        requires
            old(self).inv(),
        ensures
            final(self).inv(),
    {
        self.dive_dir(true, false);
    }

    pub fn dive_right(&mut self)
        requires
            old(self).inv(),
        ensures
            final(self).inv(),
    {
        self.dive_dir(true, true);
    }

    pub fn dive_up(&mut self)
        requires
            old(self).inv(),
        ensures
            final(self).inv(),
    {
        self.dive_dir(false, false);
    }

    pub fn dive_down(&mut self)
        requires
            old(self).inv(),
        ensures
            final(self).inv(),
    {
        self.dive_dir(false, true);
    }

    /// Move the selection to the given side of the frame showing
    /// `target_sid`.
    pub fn jump(&mut self, side: Side, target_sid: SurfaceId)
        requires
            old(self).inv(),
        ensures
            final(self).inv(),
            old(self).selection@.len() == 0 ==> final(self).root@ == old(self).root@
                && final(self).selection@ == old(self).selection@,
            !old(self).root@.contains_sid(target_sid) ==> final(self).root@ == old(self).root@
                && final(self).selection@ == old(self).selection@,
            old(self).selection@.len() >= 1 && old(self).root@.contains_sid(target_sid)
                ==> exists|t: Seq<usize>|
                #[trigger] old(self).root@.valid_path(t) && old(self).root@.frame_at(t).sid
                    == target_sid && final(self).root@ == Self::spec_jump_then_pop_tree(
                    old(self).root@,
                    old(self).selection@,
                    side,
                    t,
                ) && final(self).selection@ == Self::spec_jump_then_pop_sel(
                    old(self).root@,
                    old(self).selection@,
                    side,
                    t,
                ),
    {
        if self.selection.len() == 0 {
            return;
        }
        let t = match self.root.locate_sid(target_sid) {
            Some(t) => {
                proof {
                    crate::searching::lemma_frame_at_sid_contains(self.root@, t@, target_sid);
                }
                t
            },
            None => {
                return;
            },
        };
        let ghost tv = t@;
        let sel = clone_path(&self.selection);
        match self.root.jump(&sel, side, &t, &mut self.sa) {
            Some(q) => {
                if self.root.is_valid_path(&q) {
                    let q2 = self.root.pop_recursively(&q, &mut self.sa);
                    self.set_selection_checked(q2);
                } else {
                    self.set_selection_checked(q);
                }
            },
            None => {
                let keep = clone_path(&self.selection);
                self.set_selection_checked(keep);
            },
        }
        proof {
            assert(old(self).root@.valid_path(tv) && old(self).root@.frame_at(tv).sid
                == target_sid && self.root@ == Self::spec_jump_then_pop_tree(
                old(self).root@,
                old(self).selection@,
                side,
                tv,
            ) && self.selection@ == Self::spec_jump_then_pop_sel(
                old(self).root@,
                old(self).selection@,
                side,
                tv,
            ));
        }
    }
}

} // verus!
